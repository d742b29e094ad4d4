use skills_lint::markdown::frontmatter_from_yaml;
use skills_lint::yaml::YamlValue;
use skills_lint::path::{compare_paths, normal_depth, parse_path, path_file_name, Rank};
use skills_lint::rules::{filter_diagnostics, known_rule};
use skills_lint::run::sort_skills;
use skills_lint::skill::skill_file_path;
use skills_lint::{
    config_files, config_path, diagnostic_lines, error, error_count_line, find_relative_references,
    human_lines, lint_skill_dir, lint_skills, lint_skills_with_options, normalize_reference,
    parse_skill_markdown, rule_line, rules, rules_with_severity, should_descend, discover_skill_dirs, skill_dir_of_file, WalkEntry,
    should_include_child, unique_sorted_paths, validate_body, validate_description,
    validate_frontmatter, validate_metadata, validate_name, validate_reference, warning, Color,
    Diagnostic, LintConfig, LintOptions, Severity, SkillResult, SkillSource,
};

fn strings(items: &[&str]) -> Vec<String> {
    items.iter().map(|s| s.to_string()).collect()
}

fn codes(diagnostics: &[Diagnostic]) -> Vec<&'static str> {
    diagnostics.iter().map(|d| d.code).collect()
}

fn messages(diagnostics: &[Diagnostic]) -> Vec<String> {
    diagnostics.iter().map(|d| d.message.clone()).collect()
}

fn frontmatter_diagnostics(path: &str, source: &str) -> Vec<Diagnostic> {
    let (frontmatter, _) = parse_skill_markdown(source).unwrap();
    let mut diagnostics = Vec::new();
    validate_frontmatter(path, &frontmatter, &mut diagnostics);
    diagnostics
}

fn skill(path: &str, diagnostics: Vec<Diagnostic>) -> SkillResult {
    SkillResult { path: path.to_string(), skill_file: None, diagnostics }
}

// ---- splitting SKILL.md ----

#[test]
fn markdown_without_frontmatter_is_refused() {
    let r = parse_skill_markdown("# Title\n");
    assert_eq!(r.unwrap_err(), "SKILL.md must start with YAML frontmatter delimited by ---");
}

#[test]
fn markdown_with_crlf_fence_is_refused() {
    let r = parse_skill_markdown("---\r\nname: x\r\n---\r\nbody\r\n");
    assert_eq!(r.unwrap_err(), "SKILL.md must start with YAML frontmatter delimited by ---");
}

#[test]
fn markdown_with_fence_alone_is_unclosed() {
    let r = parse_skill_markdown("---");
    assert_eq!(r.unwrap_err(), "YAML frontmatter must be closed with ---");
}

#[test]
fn markdown_with_unclosed_frontmatter_is_refused() {
    let r = parse_skill_markdown("---\nname: x\ndescription: y\n");
    assert_eq!(r.unwrap_err(), "YAML frontmatter must be closed with ---");
}

#[test]
fn markdown_with_sequence_frontmatter_is_not_a_mapping() {
    let r = parse_skill_markdown("---\n- a\n- b\n---\nbody\n");
    assert_eq!(r.unwrap_err(), "YAML frontmatter must be a mapping");
}

#[test]
fn markdown_with_broken_yaml_reports_the_parser_error() {
    let r = parse_skill_markdown("---\nname: [unclosed\n---\n");
    let message = r.unwrap_err();
    assert!(message.starts_with("YAML frontmatter is invalid: "));
    assert!(message.len() > "YAML frontmatter is invalid: ".len());
}

#[test]
fn markdown_splits_frontmatter_and_body() {
    let (frontmatter, body) =
        parse_skill_markdown("---\nname: a\ndescription: b\n---\nFirst line.\nSecond.\n").unwrap();
    assert_eq!(frontmatter.entries.len(), 2);
    assert_eq!(body, "First line.\nSecond.\n");
}

#[test]
fn markdown_body_after_unicode_frontmatter() {
    let (_, body) = parse_skill_markdown("---\nname: é\ndescription: ü\n---\nrest").unwrap();
    assert_eq!(body, "rest");
}

#[test]
fn markdown_keeps_a_closing_fence_without_line_feed_in_body() {
    let (_, body) = parse_skill_markdown("---\nname: a\n---").unwrap();
    assert_eq!(body, "---");
}

// ---- frontmatter ----

#[test]
fn frontmatter_unknown_and_non_string_keys() {
    let d = frontmatter_diagnostics(
        "/s/a",
        "---\nname: a\ndescription: b\nextra: 1\n7: x\n---\n",
    );
    assert_eq!(codes(&d), vec!["unknown-field", "unknown-field"]);
    assert_eq!(
        messages(&d),
        strings(&["Unknown frontmatter field `extra`", "Frontmatter keys must be strings"])
    );
}

#[test]
fn frontmatter_missing_required_fields() {
    let d = frontmatter_diagnostics("/s/a", "---\nlicense: MIT\n---\n");
    assert_eq!(codes(&d), vec!["missing-name", "missing-description"]);
    assert_eq!(
        messages(&d),
        strings(&["Required field `name` is missing", "Required field `description` is missing"])
    );
}

#[test]
fn frontmatter_fields_that_are_not_strings() {
    let d = frontmatter_diagnostics("/s/a", "---\nname: 5\ndescription: [x]\n---\n");
    assert_eq!(
        codes(&d),
        vec!["missing-name", "missing-description", "invalid-name", "invalid-description"]
    );
    assert_eq!(d[2].message, "`name` must be a string");
    assert_eq!(d[3].message, "`description` must be a string");
}

#[test]
fn frontmatter_compatibility_checks() {
    let empty = frontmatter_diagnostics("/s/a", "---\nname: a\ndescription: b\ncompatibility: \"\"\n---\n");
    assert_eq!(codes(&empty), vec!["invalid-compatibility"]);
    assert_eq!(empty[0].message, "`compatibility` must be 1-500 characters");

    let number = frontmatter_diagnostics("/s/a", "---\nname: a\ndescription: b\ncompatibility: 3\n---\n");
    assert_eq!(codes(&number), vec!["invalid-compatibility"]);
    assert_eq!(number[0].message, "`compatibility` must be a string");

    let long = format!("---\nname: a\ndescription: b\ncompatibility: {}\n---\n", "c".repeat(501));
    assert_eq!(codes(&frontmatter_diagnostics("/s/a", &long)), vec!["invalid-compatibility"]);

    let fine = format!("---\nname: a\ndescription: b\ncompatibility: {}\n---\n", "c".repeat(500));
    assert!(frontmatter_diagnostics("/s/a", &fine).is_empty());
}

#[test]
fn frontmatter_metadata_checks() {
    let (good, _) = parse_skill_markdown("---\nmetadata:\n  owner: team\n  tier: gold\n---\n").unwrap();
    let mut d = Vec::new();
    validate_metadata(&good, &mut d);
    assert!(d.is_empty());

    let (scalar, _) = parse_skill_markdown("---\nmetadata: team\n---\n").unwrap();
    validate_metadata(&scalar, &mut d);
    assert_eq!(codes(&d), vec!["invalid-metadata"]);
    assert_eq!(d[0].severity, Severity::Warning);
    assert_eq!(d[0].message, "`metadata` should be a mapping of string keys to string values");

    let (nested, _) = parse_skill_markdown("---\nmetadata:\n  owner: [a, b]\n  tier: gold\n---\n").unwrap();
    let mut e = Vec::new();
    validate_metadata(&nested, &mut e);
    assert_eq!(codes(&e), vec!["invalid-metadata"]);

    let (absent, _) = parse_skill_markdown("---\nname: x\n---\n").unwrap();
    let mut f = Vec::new();
    validate_metadata(&absent, &mut f);
    assert!(f.is_empty());
}

#[test]
fn name_checks() {
    let mut d = Vec::new();
    validate_name("/skills/hello-world", "hello-world", &mut d);
    assert!(d.is_empty());

    validate_name("/skills/bad-name", "Bad--Name", &mut d);
    assert_eq!(codes(&d), vec!["invalid-name", "invalid-name", "name-directory-mismatch"]);
    assert_eq!(
        messages(&d),
        strings(&[
            "`name` must be 1-64 characters, lowercase [a-z0-9-], and cannot use leading, trailing, or consecutive hyphens",
            "`name` cannot contain consecutive hyphens",
            "`name` must match parent directory `bad-name`",
        ])
    );
}

#[test]
fn name_length_and_hyphen_edges() {
    let long = "a".repeat(64);
    let mut d = Vec::new();
    validate_name(&format!("/s/{long}"), &long, &mut d);
    assert!(d.is_empty());

    let too_long = "a".repeat(65);
    validate_name(&format!("/s/{too_long}"), &too_long, &mut d);
    assert_eq!(codes(&d), vec!["invalid-name"]);

    let mut e = Vec::new();
    validate_name("/s/-abc", "-abc", &mut e);
    validate_name("/s/abc-", "abc-", &mut e);
    validate_name("/s/", "", &mut e);
    assert_eq!(codes(&e), vec!["invalid-name", "invalid-name", "invalid-name", "name-directory-mismatch"]);
}

#[test]
fn description_length_edges() {
    let mut d = Vec::new();
    validate_description("ok", &mut d);
    validate_description(&"x".repeat(1024), &mut d);
    assert!(d.is_empty());
    validate_description("", &mut d);
    validate_description(&"é".repeat(1025), &mut d);
    assert_eq!(codes(&d), vec!["invalid-description", "invalid-description"]);
    assert_eq!(d[0].message, "`description` must be 1-1024 characters");
}

// ---- body ----

#[test]
fn body_line_count_threshold() {
    let mut d = Vec::new();
    validate_body(&"line\n".repeat(500), &Vec::new(), &mut d);
    assert!(d.is_empty());
    validate_body(&"line\n".repeat(501), &Vec::new(), &mut d);
    assert_eq!(codes(&d), vec!["body-line-count"]);
    assert_eq!(d[0].message, "SKILL.md body should stay under 500 lines, found 501");
    assert_eq!(d[0].severity, Severity::Warning);
}

#[test]
fn body_token_estimate_threshold() {
    let mut d = Vec::new();
    validate_body(&"w ".repeat(5000), &Vec::new(), &mut d);
    assert!(d.is_empty());
    validate_body(&"w\t".repeat(5001), &Vec::new(), &mut d);
    assert_eq!(codes(&d), vec!["body-token-estimate"]);
    assert_eq!(d[0].message, "SKILL.md body should stay under about 5000 tokens, estimated 5001");
}

#[test]
fn body_references_in_order_with_existence() {
    let mut d = Vec::new();
    validate_body("See [b](b.md) and [a](a/b/c.md).", &strings(&["a/b/c.md"]), &mut d);
    assert_eq!(codes(&d), vec!["reference-depth", "missing-reference"]);
    assert_eq!(
        messages(&d),
        strings(&[
            "Relative file reference `a/b/c.md` should be at most one directory level deep",
            "Relative file reference `b.md` does not exist",
        ])
    );
}

#[test]
fn reference_checks() {
    let mut d = Vec::new();
    validate_reference("references/guide.md", true, &mut d);
    assert!(d.is_empty());
    validate_reference("./a/b.md", true, &mut d);
    assert!(d.is_empty());
    validate_reference("a/b/c.md", false, &mut d);
    assert_eq!(codes(&d), vec!["reference-depth", "missing-reference"]);
    assert_eq!(d[1].message, "Relative file reference `a/b/c.md` does not exist");
}

#[test]
fn normalize_reference_cases() {
    assert_eq!(normalize_reference("guide.md#intro"), Some("guide.md".to_string()));
    assert_eq!(normalize_reference("  notes.md?raw=1 "), Some("notes.md".to_string()));
    assert_eq!(normalize_reference("a.md?x#y"), Some("a.md".to_string()));
    assert_eq!(normalize_reference("/abs.md"), None);
    assert_eq!(normalize_reference("#top"), None);
    assert_eq!(normalize_reference("http://e.com/a.md"), None);
    assert_eq!(normalize_reference("https://e.com/a.md"), None);
    assert_eq!(normalize_reference("mailto:a@b.c"), None);
    assert_eq!(normalize_reference(""), None);
    assert_eq!(normalize_reference("   "), None);
    assert_eq!(normalize_reference(" ?q"), None);
}

#[test]
fn normalize_reference_is_idempotent() {
    for target in ["guide.md#intro", "  notes.md?raw=1 ", "ré f.md", "x/y.md"] {
        let once = normalize_reference(target).unwrap();
        assert_eq!(normalize_reference(&once), Some(once.clone()));
    }
}

#[test]
fn relative_references_sorted_and_unique() {
    let refs = find_relative_references(
        "[z](z.md) [a](a.md#x) <c.txt> [again](a.md) [web](https://e.com) <noext> [abs](/r.md)",
    );
    assert_eq!(refs, strings(&["a.md", "c.txt", "z.md"]));
}

#[test]
fn relative_references_of_plain_text_are_empty() {
    assert!(find_relative_references("No links here.\n").is_empty());
}

// ---- one skill ----

#[test]
fn missing_and_unreadable_skill_files() {
    let missing = lint_skill_dir("/s/a".to_string(), SkillSource::Missing, &Vec::new());
    assert_eq!(missing.skill_file, None);
    assert_eq!(messages(&missing.diagnostics), strings(&["Skill directory must contain a SKILL.md file"]));

    let unreadable = lint_skill_dir(
        "/s/a".to_string(),
        SkillSource::Unreadable("permission denied".to_string()),
        &Vec::new(),
    );
    assert_eq!(unreadable.skill_file, Some("/s/a/SKILL.md".to_string()));
    assert_eq!(codes(&unreadable.diagnostics), vec!["read-error"]);
    assert_eq!(unreadable.diagnostics[0].message, "Could not read SKILL.md: permission denied");
}

#[test]
fn invalid_frontmatter_is_one_error() {
    let r = lint_skill_dir("/s/a".to_string(), SkillSource::Text("plain".to_string()), &Vec::new());
    assert_eq!(codes(&r.diagnostics), vec!["invalid-frontmatter"]);
    assert_eq!(r.diagnostics[0].severity, Severity::Error);
}

#[test]
fn skill_file_path_joins_like_path_join() {
    assert_eq!(skill_file_path("/s/a"), "/s/a/SKILL.md");
    assert_eq!(skill_file_path("/s/a/"), "/s/a/SKILL.md");
    assert_eq!(skill_file_path(""), "SKILL.md");
}

#[test]
fn every_diagnostic_code_is_a_rule() {
    let r = lint_skill_dir(
        "/s/x".to_string(),
        SkillSource::Text(
            "---\nname: Bad--Name\ndescription: \"\"\nextra: true\ncompatibility: 1\nmetadata: x\n---\n[a](a/b/c.md)\n"
                .to_string(),
        ),
        &Vec::new(),
    );
    assert!(r.diagnostics.len() >= 7);
    let table = rules();
    for d in &r.diagnostics {
        assert!(known_rule(d.code));
        let rule = table.iter().find(|rule| rule.id == d.code).unwrap();
        assert_eq!(rule.severity, d.severity);
    }
}

// ---- a run ----

#[test]
fn run_sorts_by_path_components() {
    let result = lint_skills(
        "/r".to_string(),
        vec![
            skill("/r/b", vec![error("read-error", "x".to_string())]),
            skill("/r/a-b", vec![]),
            skill("/r/a/x", vec![warning("body-line-count", "y".to_string())]),
            skill("/r/a", vec![]),
        ],
    );
    let paths: Vec<&str> = result.skills.iter().map(|s| s.path.as_str()).collect();
    assert_eq!(paths, vec!["/r/a", "/r/a/x", "/r/a-b", "/r/b"]);
    assert_eq!(result.error_count, 1);
    assert_eq!(result.warning_count, 1);
    assert_eq!(result.root, "/r");
}

#[test]
fn sort_keeps_equal_paths_in_order() {
    let sorted = sort_skills(vec![
        skill("/r/b", vec![]),
        skill("/r/./a", vec![error("read-error", "first".to_string())]),
        skill("/r/a/", vec![error("read-error", "second".to_string())]),
    ]);
    assert_eq!(sorted[0].diagnostics[0].message, "first");
    assert_eq!(sorted[1].diagnostics[0].message, "second");
    assert_eq!(sorted[2].path, "/r/b");
}

#[test]
fn sorting_twice_changes_nothing() {
    let once = sort_skills(vec![skill("/b", vec![]), skill("/a", vec![]), skill("/a/c", vec![])]);
    let paths: Vec<String> = once.iter().map(|s| s.path.clone()).collect();
    let twice = sort_skills(once);
    let again: Vec<String> = twice.iter().map(|s| s.path.clone()).collect();
    assert_eq!(paths, again);
}

#[test]
fn counts_cover_every_diagnostic() {
    let result = lint_skills(
        "/r".to_string(),
        vec![
            skill("/r/a", vec![error("missing-name", "m".to_string()), warning("invalid-metadata", "w".to_string())]),
            skill("/r/b", vec![warning("missing-reference", "w".to_string())]),
        ],
    );
    let total: usize = result.skills.iter().map(|s| s.diagnostics.len()).sum();
    assert_eq!(result.error_count + result.warning_count, total);
    assert_eq!((result.error_count, result.warning_count), (1, 2));
}

// ---- paths ----

#[test]
fn path_order_and_parts() {
    assert_eq!(compare_paths(&parse_path("/a/b"), &parse_path("/a-b")), Rank::Before);
    assert_eq!(compare_paths(&parse_path("a//b/"), &parse_path("a/./b")), Rank::Same);
    assert_eq!(compare_paths(&parse_path("b"), &parse_path("a/z")), Rank::After);
    assert_eq!(path_file_name("/x/skills/one"), Some("one".to_string()));
    assert_eq!(path_file_name("/x/.."), None);
    assert_eq!(normal_depth("./a/../b/c.md"), 3);
}

#[test]
fn discovery_predicates() {
    assert!(!should_descend(".git"));
    assert!(!should_descend("node_modules"));
    assert!(!should_descend("target"));
    assert!(should_descend("src"));
    assert!(should_include_child("/x/skills/one"));
    assert!(!should_include_child("/x/skills/.hidden"));
}

#[test]
fn unique_sorted_paths_dedups_in_path_order() {
    let out = unique_sorted_paths(&strings(&["/r/b", "/r/a", "/r/b/", "/r/a-b", "/r/a/x"]));
    assert_eq!(out, strings(&["/r/a", "/r/a/x", "/r/a-b", "/r/b"]));
}

// ---- options ----

#[test]
fn options_validate_reports_unknown_ids() {
    let ok = LintOptions { ignore: strings(&["body-line-count"]), select: strings(&["invalid-name"]) };
    assert_eq!(ok.validate(), Ok(()));
    let bad = LintOptions { ignore: strings(&["nope", "read-error"]), select: strings(&["also-nope"]) };
    assert_eq!(bad.validate(), Err(strings(&["nope", "also-nope"])));
}

#[test]
fn options_merge_appends() {
    let mut a = LintOptions { ignore: strings(&["read-error"]), select: Vec::new() };
    a.merge(LintOptions { ignore: strings(&["missing-name"]), select: strings(&["invalid-name"]) });
    assert_eq!(a.ignore, strings(&["read-error", "missing-name"]));
    assert_eq!(a.select, strings(&["invalid-name"]));
    assert!(!a.is_enabled("read-error"));
    assert!(!a.is_enabled("missing-name"));
    assert!(a.is_enabled("invalid-name"));
    assert!(!a.is_enabled("unknown-field"));
}

#[test]
fn options_default_and_config() {
    let d = LintOptions::default();
    assert!(d.is_enabled("read-error"));
    let kept = filter_diagnostics(vec![error("read-error", "a".to_string()), warning("body-line-count", "b".to_string())], &d);
    assert_eq!(codes(&kept), vec!["read-error", "body-line-count"]);

    let c = LintOptions::from_config(LintConfig { ignore: strings(&["a"]), select: strings(&["b"]) });
    assert_eq!(c.ignore, strings(&["a"]));
    assert_eq!(c.select, strings(&["b"]));
}

#[test]
fn filter_keeps_enabled_in_order() {
    let o = LintOptions { ignore: strings(&["body-line-count"]), select: Vec::new() };
    let kept = filter_diagnostics(
        vec![
            warning("body-line-count", "x".to_string()),
            error("missing-name", "y".to_string()),
            warning("missing-reference", "z".to_string()),
        ],
        &o,
    );
    assert_eq!(codes(&kept), vec!["missing-name", "missing-reference"]);
}

#[test]
fn run_with_options_filters_then_counts() {
    let o = LintOptions { ignore: Vec::new(), select: strings(&["missing-reference"]) };
    let result = lint_skills_with_options(
        "/r".to_string(),
        vec![
            skill("/r/b", vec![warning("missing-reference", "w".to_string())]),
            skill("/r/a", vec![error("missing-name", "e".to_string())]),
        ],
        &o,
    );
    assert_eq!(result.error_count, 0);
    assert_eq!(result.warning_count, 1);
    assert_eq!(result.skills[0].path, "/r/a");
    assert!(result.skills[0].diagnostics.is_empty());
}

// ---- output ----

#[test]
fn color_paints_only_when_enabled() {
    let on = Color { enabled: true };
    let off = Color { enabled: false };
    assert_eq!(on.red("error"), "\x1b[31;1merror\x1b[0m");
    assert_eq!(on.cyan("id"), "\x1b[36mid\x1b[0m");
    assert_eq!(on.blue("-->"), "\x1b[34m-->\x1b[0m");
    assert_eq!(off.red("error"), "error");
    assert_eq!(off.paint("1", "v"), "v");
}

#[test]
fn color_flags() {
    assert!(Color::from_flags(true, false, false).enabled);
    assert!(Color::from_flags(false, false, true).enabled);
    assert!(!Color::from_flags(true, true, true).enabled);
    assert!(!Color::from_flags(false, false, false).enabled);
}

#[test]
fn human_report_lines() {
    let mut with_file = skill("/r/a", vec![warning("missing-reference", "gone".to_string())]);
    with_file.skill_file = Some("/r/a/SKILL.md".to_string());
    let skills = vec![with_file, skill("/r/b", vec![error("missing-skill-md", "none".to_string())])];
    let lines = human_lines(&skills, Color { enabled: false });
    assert_eq!(
        lines,
        strings(&[
            "error(missing-reference): gone",
            " --> /r/a/SKILL.md",
            "",
            "error(missing-skill-md): none",
            " --> /r/b",
        ])
    );
    let (first, second) = diagnostic_lines(&skills[1], &skills[1].diagnostics[0], Color { enabled: true });
    assert_eq!(first, "\x1b[31;1merror\x1b[0m(\x1b[36mmissing-skill-md\x1b[0m): none");
    assert_eq!(second, " \x1b[34m-->\x1b[0m /r/b");
    assert!(human_lines(&vec![skill("/r/c", vec![])], Color { enabled: false }).is_empty());
}

#[test]
fn error_count_line_in_decimal() {
    assert_eq!(error_count_line(0), "0 error(s)");
    assert_eq!(error_count_line(1204), "1204 error(s)");
}

#[test]
fn listed_rules_are_the_error_rules() {
    let listed = rules_with_severity(Severity::Error);
    assert_eq!(listed.len(), 10);
    assert_eq!(listed[0].id, "missing-skill-md");
    assert_eq!(listed[9].id, "invalid-compatibility");
    assert_eq!(rules_with_severity(Severity::Warning).len(), 5);
    assert_eq!(rule_line(listed[1]), "  read-error: `SKILL.md` must be readable");
    assert_eq!(rules().len(), 15);
}

#[test]
fn config_file_choice() {
    let names: Vec<&str> = config_files();
    assert_eq!(names, vec!["slint.toml", ".slint.toml"]);
    assert_eq!(config_path(Some("my.toml".to_string()), &strings(&["slint.toml"])), Some("my.toml".to_string()));
    assert_eq!(config_path(None, &strings(&[".slint.toml", "slint.toml"])), Some("slint.toml".to_string()));
    assert_eq!(config_path(None, &strings(&[".slint.toml"])), Some(".slint.toml".to_string()));
    assert_eq!(config_path(None, &Vec::new()), None);
}

// ---- the logic after each outside call ----

#[test]
fn check_name_given_the_pattern_result() {
    let mut d = Vec::new();
    skills_lint::frontmatter::check_name("/s/ok", "ok", true, &mut d);
    assert!(d.is_empty());
    skills_lint::frontmatter::check_name("/s/ok", "ok", false, &mut d);
    assert_eq!(codes(&d), vec!["invalid-name"]);
}

#[test]
fn frontmatter_from_yaml_outcomes() {
    assert_eq!(
        frontmatter_from_yaml(Err("bad indent".to_string())).unwrap_err(),
        "YAML frontmatter is invalid: bad indent"
    );
    assert_eq!(frontmatter_from_yaml(Ok(None)).unwrap_err(), "YAML frontmatter must be a mapping");
    let f = frontmatter_from_yaml(Ok(Some(vec![(
        YamlValue::Str("name".to_string()),
        YamlValue::Str("x".to_string()),
    )])))
    .unwrap();
    assert_eq!(f.entries.len(), 1);
}

#[test]
fn collect_references_from_targets() {
    let refs = skills_lint::body::collect_references(&strings(&["b.md", "a.md#x", "http://x", "b.md", " "]));
    assert_eq!(refs, strings(&["a.md", "b.md"]));
}

// ---- discovery ----

fn entry(name: &str, is_file: bool, parent: &str, child_dirs: &[&str]) -> WalkEntry {
    WalkEntry {
        name: name.to_string(),
        is_file,
        is_dir: !is_file,
        parent: Some(parent.to_string()),
        child_dirs: strings(child_dirs),
    }
}

#[test]
fn discovery_from_walk_entries() {
    let entries = vec![
        entry("repo", false, "/", &[]),
        entry("SKILL.md", true, "/repo/b", &[]),
        entry("skills", false, "/repo", &["/repo/skills/z", "/repo/skills/.cache", "/repo/skills/a"]),
        entry("SKILL.md", true, "/repo/skills/a", &[]),
        entry("README.md", true, "/repo", &[]),
        entry("notes", false, "/repo", &["/repo/notes/x"]),
    ];
    let dirs = discover_skill_dirs(&entries, Some("repo".to_string()), &Vec::new());
    assert_eq!(dirs, strings(&["/repo/b", "/repo/skills/a", "/repo/skills/z"]));
}

#[test]
fn discovery_at_a_skills_root() {
    let entries = vec![entry("skills", false, "/r", &["/r/skills/one"])];
    let dirs = discover_skill_dirs(
        &entries,
        Some("skills".to_string()),
        &strings(&["/r/skills/one", "/r/skills/two", "/r/skills/.git"]),
    );
    assert_eq!(dirs, strings(&["/r/skills/one", "/r/skills/two"]));
}

#[test]
fn discovery_at_a_file() {
    assert_eq!(skill_dir_of_file("SKILL.md", Some("/r/a".to_string())), strings(&["/r/a"]));
    assert!(skill_dir_of_file("README.md", Some("/r/a".to_string())).is_empty());
    assert!(skill_dir_of_file("SKILL.md", None).is_empty());
}

// ---- a whole run ----

fn found(path: &str, source: SkillSource) -> skills_lint::found::FoundSkill {
    skills_lint::found::FoundSkill { path: path.to_string(), source, existing: Vec::new() }
}

#[test]
fn lint_found_lints_each_directory_once_in_path_order() {
    let o = LintOptions::default();
    let result = skills_lint::found::lint_found(
        "/r".to_string(),
        vec![
            found("/r/a", SkillSource::Missing),
            found("/r/a/x", SkillSource::Text("---\nname: x\ndescription: d\n---\n".to_string())),
            found("/r/b", SkillSource::Unreadable("denied".to_string())),
        ],
        &o,
    );
    let paths: Vec<&str> = result.skills.iter().map(|s| s.path.as_str()).collect();
    assert_eq!(paths, vec!["/r/a", "/r/a/x", "/r/b"]);
    assert!(result.skills[1].diagnostics.is_empty());
    assert_eq!(result.error_count, 2);
    assert_eq!(result.warning_count, 0);
}

#[test]
fn lint_found_applies_options() {
    let o = LintOptions { ignore: strings(&["missing-skill-md"]), select: Vec::new() };
    let result = skills_lint::found::lint_found("/r".to_string(), vec![found("/r/a", SkillSource::Missing)], &o);
    assert_eq!(result.error_count, 0);
    assert!(result.skills[0].diagnostics.is_empty());
}

#[test]
fn name_rule_edges() {
    let mut d = Vec::new();
    validate_name("/s/a-b", "a-b", &mut d);
    validate_name("/s/0", "0", &mut d);
    assert!(d.is_empty());
    validate_name("/s/a--b", "a--b", &mut d);
    assert_eq!(codes(&d), vec!["invalid-name"]);
    let mut e = Vec::new();
    validate_name("/s/-", "-", &mut e);
    validate_name("/s/é", "é", &mut e);
    validate_name("/s/a_b", "a_b", &mut e);
    assert_eq!(codes(&e), vec!["invalid-name", "invalid-name", "invalid-name"]);
}

#[test]
fn should_include_child_examples() {
    assert!(should_include_child("skills/foo"));
    assert!(!should_include_child("skills/.hidden"));
    assert!(!should_include_child("/"));
    assert!(!should_include_child("skills/.."));
}

#[test]
fn counting_caps_nothing_in_ordinary_runs() {
    let result = lint_skills("/r".to_string(), vec![skill("/r/a", vec![error("read-error", "x".to_string())])]);
    assert_eq!(result.error_count, 1);
}

#[test]
fn markdown_body_may_itself_start_with_a_fence() {
    let (frontmatter, body) = parse_skill_markdown("---\nname: a\n---\n---\nrest\n").unwrap();
    assert_eq!(frontmatter.entries.len(), 1);
    assert_eq!(body, "---\nrest\n");
}
