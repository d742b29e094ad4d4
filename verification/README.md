# skills_lint

`slint` lints Agent Skills in monorepos: it finds skill directories (those with
a `SKILL.md`, and the children of `skills` directories), checks each skill's
YAML frontmatter and Markdown body against the rules below, and exits nonzero
when it finds errors.

The checks are a library verified with Verus: each function states in its
contract exactly which diagnostics it gives, and the library proves laws about
them, such as that every diagnostic carries the ID and severity of a listed
rule, that a run's skills come in path order with counts that cover every
diagnostic, and that options never add diagnostics.

## Layout

- `src/` — the verified library.
  - `text.rs`, `order.rs`, `path.rs` — text, order and path models (lines,
    words, trimming, UTF-8 lengths, `Path::components` and its order).
  - `markdown.rs`, `yaml.rs` — splitting `SKILL.md` into frontmatter and body;
    the YAML parse is `serde_yaml`'s.
  - `frontmatter.rs`, `body.rs`, `pattern.rs` — the checks on the fields and on
    the body; the regular expressions are matched by `regex`.
  - `skill.rs`, `run.rs`, `discover.rs` — one skill's diagnostics, a run's
    result, and the rules by which skill directories are found.
  - `rules.rs`, `report.rs`, `color.rs`, `diagnostic.rs` — the rule table,
    options, and what the command line prints.
  - `found.rs`, `fields.rs` — a whole run over the directories found, and the
    rule-by-rule laws of the frontmatter checks.
- `app/` — the `slint` binary: arguments, the file system, JSON output.
  Paths reach the library as text; a child of a `skills` directory whose name
  is not UTF-8 is left out, and other paths are shown with replacement
  characters where they are not UTF-8.

## Sets as sorted vectors

Where a set of paths or references is built (the skill directories found, the
references of a body), the library keeps a `Vec` with the invariant that it is
sorted and holds each item once (for paths: by their components, the first of
equal paths kept). A `BTreeSet<String>` or `BTreeSet<PathBuf>` would order its
items by `Ord` impls that Verus does not read, so its contract could not say in
which order the set yields them; the `Vec` and its invariant say it exactly.
- `tests/` — tests of the library on concrete values.

## Lint rules

| Rule ID | Description |
| --- | --- |
| `missing-skill-md` | Skill directories must contain `SKILL.md` |
| `read-error` | `SKILL.md` must be readable |
| `invalid-frontmatter` | `SKILL.md` must start with valid YAML frontmatter closed by `---` |
| `unknown-field` | Only `name`, `description`, `license`, `allowed-tools`, `metadata`, and `compatibility` are allowed |
| `missing-name` | `name` is required |
| `invalid-name` | `name` must be 1-64 chars, lowercase `[a-z0-9-]`, with no leading, trailing, or consecutive hyphens |
| `name-directory-mismatch` | `name` must match the parent directory name |
| `missing-description` | `description` is required |
| `invalid-description` | `description` must be a string and 1-1024 characters |
| `invalid-compatibility` | `compatibility`, when present, must be a string and 1-500 characters |
| `invalid-metadata` | `metadata` should be a mapping of string keys to string values |
| `body-line-count` | `SKILL.md` body should stay under 500 lines |
| `body-token-estimate` | `SKILL.md` body should stay under about 5000 whitespace-delimited tokens |
| `reference-depth` | Relative file references should be at most one directory level deep |
| `missing-reference` | Relative file references in the body should exist on disk |
