use skills_lint::{
    Diagnostic, SkillResult, SkillSource, find_relative_references, lint_skill_dir, lint_skills,
    parse_skill_markdown,
};

/// The relative references of a skill's body that exist, given the files that exist.
fn existing_references(source: &str, files: &[&str]) -> Vec<String> {
    match parse_skill_markdown(source) {
        Ok((_, body)) => find_relative_references(body)
            .into_iter()
            .filter(|reference| files.contains(&reference.as_str()))
            .collect(),
        Err(_) => Vec::new(),
    }
}

fn lint_text(path: &str, source: &str, files: &[&str]) -> SkillResult {
    let existing = existing_references(source, files);
    lint_skill_dir(path.to_string(), SkillSource::Text(source.to_string()), &existing)
}

fn codes(result: &SkillResult) -> Vec<&'static str> {
    result.diagnostics.iter().map(|diagnostic: &Diagnostic| diagnostic.code).collect()
}

#[test]
fn valid_skill_has_no_diagnostics() {
    let skill = lint_text(
        "/tmp/skills-lint-test/skills/hello-world",
        "---\nname: hello-world\ndescription: Greets the world\nmetadata:\n  owner: platform\n---\nSee [guide](references/guide.md).\n",
        &["references/guide.md"],
    );

    let result = lint_skills("/tmp/skills-lint-test/skills".to_string(), vec![skill]);

    assert_eq!(result.error_count, 0);
    assert_eq!(result.warning_count, 0);
}

#[test]
fn catches_frontmatter_errors() {
    let result = lint_text(
        "/tmp/skills-lint-test/bad-name",
        "---\nname: Bad--Name\ndescription: \"\"\nextra: true\nmetadata:\n  owner: [team]\n---\n",
        &[],
    );
    let codes = codes(&result);

    assert!(codes.contains(&"unknown-field"));
    assert!(codes.contains(&"invalid-name"));
    assert!(codes.contains(&"name-directory-mismatch"));
    assert!(codes.contains(&"invalid-description"));
    assert!(codes.contains(&"invalid-metadata"));
}

#[test]
fn catches_missing_skill_md_in_skills_root_child() {
    let skill = lint_skill_dir(
        "/tmp/skills-lint-test/skills/missing-file".to_string(),
        SkillSource::Missing,
        &Vec::new(),
    );

    let result = lint_skills("/tmp/skills-lint-test/skills".to_string(), vec![skill]);

    assert_eq!(result.error_count, 1);
    assert_eq!(result.skills[0].diagnostics[0].code, "missing-skill-md");
}

#[test]
fn catches_reference_warnings() {
    let result = lint_text(
        "/tmp/skills-lint-test/reference-test",
        "---\nname: reference-test\ndescription: Tests references\n---\nRead [deep](a/b/c.md) and <missing.md>.\n",
        &[],
    );
    let codes = codes(&result);

    assert!(codes.contains(&"reference-depth"));
    assert!(codes.contains(&"missing-reference"));
}
