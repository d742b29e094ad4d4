//! The checks on a skill's frontmatter fields.
use vstd::prelude::*;
use vstd::string::StringExecFns;
use crate::diagnostic::{Diagnostic, DiagnosticView, Severity, diag, diags_view, error, warning};
use crate::markdown::Frontmatter;
use crate::path::{file_name, path_file_name};
use crate::pattern::{NAME_PATTERN, is_match, name_shape};
use crate::text::{char_count, contains_double_hyphen, has_double_hyphen, same_text};
use crate::yaml::{YamlNode, YamlValue, mapping_view};

verus! {

/// The text of a value, as `serde_yaml::Value::as_str` gives it (looking through tags).
pub open spec fn node_text(n: YamlNode) -> Option<Seq<char>> {
    match n {
        YamlNode::Str(s) => Some(s),
        YamlNode::Other(o) => o,
        _ => None,
    }
}

/// The text of a value, where it is a string.
pub fn value_text(v: &YamlValue) -> (r: Option<&String>)
    ensures
        match r {
            Some(s) => node_text(v@) == Some(s@),
            None => node_text(v@) is None,
        },
{
    match v {
        YamlValue::Str(s) => Some(s),
        YamlValue::Other(Some(s)) => Some(s),
        _ => None,
    }
}

/// The value of the first entry whose key is the plain string `key`.
pub open spec fn lookup(es: Seq<(YamlNode, YamlNode)>, key: Seq<char>) -> Option<YamlNode>
    decreases es.len(),
{
    if es.len() == 0 {
        None
    } else if es[0].0 == YamlNode::Str(key) {
        Some(es[0].1)
    } else {
        lookup(es.drop_first(), key)
    }
}

/// The text of the value under `key`, where there is one and it is a string.
pub open spec fn lookup_text(es: Seq<(YamlNode, YamlNode)>, key: Seq<char>) -> Option<Seq<char>> {
    match lookup(es, key) {
        Some(v) => node_text(v),
        None => None,
    }
}

/// The value under the plain string key `key`, as `Mapping::get` finds it.
pub fn get_value<'a>(fm: &'a Frontmatter, key: &str) -> (r: Option<&'a YamlValue>)
    ensures
        match r {
            Some(v) => lookup(fm@, key@) == Some(v@),
            None => lookup(fm@, key@) is None,
        },
{
    let mut i: usize = 0;
    proof {
        assert(fm@.skip(0) =~= fm@);
    }
    while i < fm.entries.len()
        invariant
            i <= fm@.len(),
            fm@.len() == fm.entries@.len(),
            lookup(fm@, key@) == lookup(fm@.skip(i as int), key@),
        decreases fm@.len() - i,
    {
        let (k, v) = &fm.entries[i];
        proof {
            assert(fm@[i as int] == (k@, v@));
            assert(fm@.skip(i as int)[0] == fm@[i as int]);
            assert(fm@.skip(i as int).drop_first() =~= fm@.skip(i + 1));
        }
        if let YamlValue::Str(s) = k {
            if same_text(s.as_str(), key) {
                return Some(v);
            }
        }
        i = i + 1;
    }
    None
}

/// The text of the value under `key`, where it is a string.
pub fn get_string<'a>(fm: &'a Frontmatter, key: &str) -> (r: Option<&'a String>)
    ensures
        match r {
            Some(s) => lookup_text(fm@, key@) == Some(s@),
            None => lookup_text(fm@, key@) is None,
        },
{
    match get_value(fm, key) {
        Some(v) => value_text(v),
        None => None,
    }
}

/// Whether the mapping has the plain string key `key`.
pub fn has_key(fm: &Frontmatter, key: &str) -> (b: bool)
    ensures
        b == lookup(fm@, key@) is Some,
{
    get_value(fm, key).is_some()
}

/// The fields that the frontmatter may hold.
pub open spec fn allowed_field(k: Seq<char>) -> bool {
    ||| k == "name"@
    ||| k == "description"@
    ||| k == "license"@
    ||| k == "allowed-tools"@
    ||| k == "metadata"@
    ||| k == "compatibility"@
}

/// The diagnostic for a key of the frontmatter, if it has one.
pub open spec fn key_diags(k: YamlNode) -> Seq<DiagnosticView> {
    match node_text(k) {
        Some(t) => if allowed_field(t) {
            Seq::empty()
        } else {
            seq![diag(Severity::Error, "unknown-field"@, "Unknown frontmatter field `"@ + t + "`"@)]
        },
        None => seq![diag(Severity::Error, "unknown-field"@, "Frontmatter keys must be strings"@)],
    }
}

/// The diagnostics for the keys of the frontmatter, in order.
pub open spec fn unknown_field_diags(es: Seq<(YamlNode, YamlNode)>) -> Seq<DiagnosticView>
    decreases es.len(),
{
    if es.len() == 0 {
        Seq::empty()
    } else {
        unknown_field_diags(es.drop_last()) + key_diags(es.last().0)
    }
}

/// The diagnostics for a `name`, found in the skill directory `path`, where
/// `matches` tells whether the name has the shape of `NAME_PATTERN`.
pub open spec fn name_diags_for(path: Seq<char>, name: Seq<char>, matches: bool) -> Seq<
    DiagnosticView,
> {
    (if name.len() == 0 || name.len() > 64 || !matches {
        seq![
            diag(
                Severity::Error,
                "invalid-name"@,
                "`name` must be 1-64 characters, lowercase [a-z0-9-], and cannot use leading, trailing, or consecutive hyphens"@,
            ),
        ]
    } else {
        Seq::empty()
    }) + (if has_double_hyphen(name) {
        seq![diag(Severity::Error, "invalid-name"@, "`name` cannot contain consecutive hyphens"@)]
    } else {
        Seq::empty()
    }) + match file_name(path) {
        Some(d) => if d != name {
            seq![
                diag(
                    Severity::Error,
                    "name-directory-mismatch"@,
                    "`name` must match parent directory `"@ + d + "`"@,
                ),
            ]
        } else {
            Seq::empty()
        },
        None => Seq::empty(),
    }
}

/// The diagnostics for a `name`, found in the skill directory `path`.
pub open spec fn name_diags(path: Seq<char>, name: Seq<char>) -> Seq<DiagnosticView> {
    name_diags_for(path, name, name_shape(name))
}

/// The name rule of the README: `invalid-name` comes exactly where the name is
/// not 1-64 characters of lowercase `[a-z0-9-]` with no leading, trailing or
/// consecutive hyphens.
pub proof fn lemma_name_rule(path: Seq<char>, name: Seq<char>)
    ensures
        (exists|k: int|
            0 <= k < name_diags(path, name).len() && (#[trigger] name_diags(path, name)[k]).code
                == "invalid-name"@) <==> !(name_shape(name) && !has_double_hyphen(name)),
{
    let d = name_diags(path, name);
    let m = "name-directory-mismatch"@;
    assert(m != "invalid-name"@) by {
        reveal_strlit("name-directory-mismatch");
        reveal_strlit("invalid-name");
        assert(m.len() != "invalid-name"@.len());
    }
    let a: Seq<DiagnosticView> = if name.len() == 0 || name.len() > 64 || !name_shape(name) {
        seq![
            diag(
                Severity::Error,
                "invalid-name"@,
                "`name` must be 1-64 characters, lowercase [a-z0-9-], and cannot use leading, trailing, or consecutive hyphens"@,
            ),
        ]
    } else {
        Seq::empty()
    };
    let b: Seq<DiagnosticView> = if has_double_hyphen(name) {
        seq![diag(Severity::Error, "invalid-name"@, "`name` cannot contain consecutive hyphens"@)]
    } else {
        Seq::empty()
    };
    let c = d.skip((a.len() + b.len()) as int);
    assert(d == a + b + c);
    assert forall|k: int| 0 <= k < c.len() implies (#[trigger] c[k]).code == m by {}
    if !(name_shape(name) && !has_double_hyphen(name)) {
        if a.len() > 0 {
            assert(d[0] == a[0]);
        } else {
            assert(d[0] == b[0]);
        }
    } else {
        assert forall|k: int| 0 <= k < d.len() implies (#[trigger] d[k]).code != "invalid-name"@ by {
            assert(d[k] == c[k]);
        }
    }
}

/// The diagnostics for a `description`.
pub open spec fn description_diags(description: Seq<char>) -> Seq<DiagnosticView> {
    if description.len() == 0 || description.len() > 1024 {
        seq![
            diag(
                Severity::Error,
                "invalid-description"@,
                "`description` must be 1-1024 characters"@,
            ),
        ]
    } else {
        Seq::empty()
    }
}

/// The diagnostics for `compatibility`.
pub open spec fn compatibility_diags(es: Seq<(YamlNode, YamlNode)>) -> Seq<DiagnosticView> {
    match lookup_text(es, "compatibility"@) {
        Some(c) => if c.len() == 0 || c.len() > 500 {
            seq![
                diag(
                    Severity::Error,
                    "invalid-compatibility"@,
                    "`compatibility` must be 1-500 characters"@,
                ),
            ]
        } else {
            Seq::empty()
        },
        None => if lookup(es, "compatibility"@) is Some {
            seq![
                diag(
                    Severity::Error,
                    "invalid-compatibility"@,
                    "`compatibility` must be a string"@,
                ),
            ]
        } else {
            Seq::empty()
        },
    }
}

/// The warning about `metadata`.
pub open spec fn metadata_warning() -> DiagnosticView {
    diag(
        Severity::Warning,
        "invalid-metadata"@,
        "`metadata` should be a mapping of string keys to string values"@,
    )
}

/// `metadata` is a plain mapping whose keys and values are all strings.
pub open spec fn metadata_ok(n: YamlNode) -> bool {
    match n {
        YamlNode::Mapping(ms) => forall|i: int|
            0 <= i < ms.len() ==> (#[trigger] ms[i]).0 is Some && ms[i].1 is Some,
        _ => false,
    }
}

/// The diagnostics for `metadata`.
pub open spec fn metadata_diags(es: Seq<(YamlNode, YamlNode)>) -> Seq<DiagnosticView> {
    match lookup(es, "metadata"@) {
        Some(m) => if metadata_ok(m) {
            Seq::empty()
        } else {
            seq![metadata_warning()]
        },
        None => Seq::empty(),
    }
}

/// The diagnostics for the field `name`: those of its text, or that it is missing.
pub open spec fn name_part(path: Seq<char>, es: Seq<(YamlNode, YamlNode)>) -> Seq<DiagnosticView> {
    match lookup_text(es, "name"@) {
        Some(n) => name_diags(path, n),
        None => seq![diag(Severity::Error, "missing-name"@, "Required field `name` is missing"@)],
    }
}

/// The diagnostics for the field `description`: those of its text, or that it is missing.
pub open spec fn description_part(es: Seq<(YamlNode, YamlNode)>) -> Seq<DiagnosticView> {
    match lookup_text(es, "description"@) {
        Some(d) => description_diags(d),
        None => seq![
            diag(
                Severity::Error,
                "missing-description"@,
                "Required field `description` is missing"@,
            ),
        ],
    }
}

/// The diagnostics for the required fields `name` and `description`.
pub open spec fn required_diags(path: Seq<char>, es: Seq<(YamlNode, YamlNode)>) -> Seq<
    DiagnosticView,
> {
    name_part(path, es) + description_part(es)
}

/// The error for a `name` that is there but is not a string.
pub open spec fn name_type_part(es: Seq<(YamlNode, YamlNode)>) -> Seq<DiagnosticView> {
    if lookup(es, "name"@) is Some && lookup_text(es, "name"@) is None {
        seq![diag(Severity::Error, "invalid-name"@, "`name` must be a string"@)]
    } else {
        Seq::empty()
    }
}

/// The error for a `description` that is there but is not a string.
pub open spec fn description_type_part(es: Seq<(YamlNode, YamlNode)>) -> Seq<DiagnosticView> {
    if lookup(es, "description"@) is Some && lookup_text(es, "description"@) is None {
        seq![diag(Severity::Error, "invalid-description"@, "`description` must be a string"@)]
    } else {
        Seq::empty()
    }
}

/// The diagnostics for a `name` or `description` that is there but is not a string.
pub open spec fn field_type_diags(es: Seq<(YamlNode, YamlNode)>) -> Seq<DiagnosticView> {
    name_type_part(es) + description_type_part(es)
}

/// The diagnostics for the frontmatter `es` of the skill directory `path`, in order.
pub open spec fn frontmatter_diags(path: Seq<char>, es: Seq<(YamlNode, YamlNode)>) -> Seq<
    DiagnosticView,
> {
    unknown_field_diags(es) + required_diags(path, es) + field_type_diags(es) + compatibility_diags(
        es,
    ) + metadata_diags(es)
}

/// Appending a diagnostic appends its view.
pub proof fn lemma_push_diag(ds: Seq<Diagnostic>, d: Diagnostic)
    ensures
        diags_view(ds.push(d)) == diags_view(ds) + seq![d@],
{
    assert(diags_view(ds.push(d)) =~= diags_view(ds) + seq![d@]);
}

/// Appends the diagnostic `d`.
pub fn push_diag(diagnostics: &mut Vec<Diagnostic>, d: Diagnostic)
    ensures
        diags_view(final(diagnostics)@) == diags_view(old(diagnostics)@) + seq![d@],
{
    proof {
        lemma_push_diag(diagnostics@, d);
    }
    diagnostics.push(d);
}

/// Whether `k` is one of the fields that the frontmatter may hold.
pub fn is_allowed_field(k: &str) -> (b: bool)
    ensures
        b == allowed_field(k@),
{
    same_text(k, "name") || same_text(k, "description") || same_text(k, "license") || same_text(
        k,
        "allowed-tools",
    ) || same_text(k, "metadata") || same_text(k, "compatibility")
}

/// Reports each key of the frontmatter that is not a string or not an allowed field.
pub fn validate_keys(fm: &Frontmatter, diagnostics: &mut Vec<Diagnostic>)
    ensures
        diags_view(final(diagnostics)@) == diags_view(old(diagnostics)@) + unknown_field_diags(fm@),
{
    let mut i: usize = 0;
    proof {
        assert(fm@.take(0) =~= Seq::<(YamlNode, YamlNode)>::empty());
        assert(diags_view(diagnostics@) =~= diags_view(old(diagnostics)@) + Seq::empty());
    }
    while i < fm.entries.len()
        invariant
            i <= fm@.len(),
            fm@.len() == fm.entries@.len(),
            diags_view(diagnostics@) == diags_view(old(diagnostics)@) + unknown_field_diags(
                fm@.take(i as int),
            ),
        decreases fm@.len() - i,
    {
        let (k, _) = &fm.entries[i];
        proof {
            assert(fm@[i as int].0 == k@);
            assert(fm@.take(i + 1).drop_last() =~= fm@.take(i as int));
            assert(fm@.take(i + 1).last() == fm@[i as int]);
        }
        let ghost before = diags_view(diagnostics@);
        match value_text(k) {
            Some(key) => {
                if !is_allowed_field(key.as_str()) {
                    let mut m = "Unknown frontmatter field `".to_owned();
                    m.append(key.as_str());
                    m.append("`");
                    push_diag(diagnostics, error("unknown-field", m));
                } else {
                    assert(before + key_diags(k@) =~= before);
                }
            },
            None => {
                push_diag(diagnostics, error("unknown-field", "Frontmatter keys must be strings".to_owned()));
            },
        }
        proof {
            assert(diags_view(diagnostics@) =~= diags_view(old(diagnostics)@) + unknown_field_diags(
                fm@.take(i + 1),
            ));
        }
        i = i + 1;
    }
    proof {
        assert(fm@.take(i as int) =~= fm@);
    }
}

/// Checks the `name` field against its shape and the skill directory `path`,
/// given whether it matches `NAME_PATTERN`.
pub fn check_name(path: &str, name: &str, matches: bool, diagnostics: &mut Vec<Diagnostic>)
    ensures
        diags_view(final(diagnostics)@) == diags_view(old(diagnostics)@) + name_diags_for(
            path@,
            name@,
            matches,
        ),
{
    let n = char_count(name);
    if n == 0 || n > 64 || !matches {
        push_diag(
            diagnostics,
            error(
                "invalid-name",
                "`name` must be 1-64 characters, lowercase [a-z0-9-], and cannot use leading, trailing, or consecutive hyphens".to_owned(),
            ),
        );
    }
    if contains_double_hyphen(name) {
        push_diag(diagnostics, error("invalid-name", "`name` cannot contain consecutive hyphens".to_owned()));
    }
    if let Some(directory_name) = path_file_name(path) {
        if !same_text(directory_name.as_str(), name) {
            let mut m = "`name` must match parent directory `".to_owned();
            m.append(directory_name.as_str());
            m.append("`");
            push_diag(diagnostics, error("name-directory-mismatch", m));
        }
    }
    proof {
        assert(diags_view(diagnostics@) =~= diags_view(old(diagnostics)@) + name_diags_for(
            path@,
            name@,
            matches,
        ));
    }
}

/// Checks the `name` field against its shape and the skill directory `path`.
pub fn validate_name(path: &str, name: &str, diagnostics: &mut Vec<Diagnostic>)
    ensures
        diags_view(final(diagnostics)@) == diags_view(old(diagnostics)@) + name_diags(path@, name@),
{
    let matches = is_match(NAME_PATTERN, name);
    check_name(path, name, matches, diagnostics);
}


/// Checks the length of the `description` field.
pub fn validate_description(description: &str, diagnostics: &mut Vec<Diagnostic>)
    ensures
        diags_view(final(diagnostics)@) == diags_view(old(diagnostics)@) + description_diags(
            description@,
        ),
{
    let length = char_count(description);
    if length == 0 || length > 1024 {
        push_diag(
            diagnostics,
            error("invalid-description", "`description` must be 1-1024 characters".to_owned()),
        );
    } else {
        assert(diags_view(diagnostics@) =~= diags_view(diagnostics@) + Seq::empty());
    }
}

/// Checks the `compatibility` field.
pub fn validate_compatibility(fm: &Frontmatter, diagnostics: &mut Vec<Diagnostic>)
    ensures
        diags_view(final(diagnostics)@) == diags_view(old(diagnostics)@) + compatibility_diags(fm@),
{
    if let Some(compatibility) = get_string(fm, "compatibility") {
        let n = char_count(compatibility.as_str());
        if n == 0 || n > 500 {
            push_diag(
                diagnostics,
                error("invalid-compatibility", "`compatibility` must be 1-500 characters".to_owned()),
            );
            return ;
        }
    } else if has_key(fm, "compatibility") {
        push_diag(
            diagnostics,
            error("invalid-compatibility", "`compatibility` must be a string".to_owned()),
        );
        return ;
    }
    assert(diags_view(diagnostics@) =~= diags_view(diagnostics@) + Seq::empty());
}

/// Checks that `metadata`, where present, maps strings to strings.
pub fn validate_metadata(fm: &Frontmatter, diagnostics: &mut Vec<Diagnostic>)
    ensures
        diags_view(final(diagnostics)@) == diags_view(old(diagnostics)@) + metadata_diags(fm@),
{
    let metadata = match get_value(fm, "metadata") {
        Some(m) => m,
        None => {
            assert(diags_view(diagnostics@) =~= diags_view(diagnostics@) + Seq::empty());
            return ;
        },
    };
    let ghost node = metadata@;
    let entries = match metadata {
        YamlValue::Mapping(entries) => entries,
        _ => {
            push_diag(
                diagnostics,
                warning(
                    "invalid-metadata",
                    "`metadata` should be a mapping of string keys to string values".to_owned(),
                ),
            );
            return ;
        },
    };
    let mut i: usize = 0;
    while i < entries.len()
        invariant
            i <= entries@.len(),
            node == metadata@,
            lookup(fm@, "metadata"@) == Some(metadata@),
            metadata@ == YamlNode::Mapping(mapping_view(entries@)),
            diags_view(diagnostics@) == diags_view(old(diagnostics)@),
            forall|j: int| 0 <= j < i ==> entries@[j].0 is Some && entries@[j].1 is Some,
        decreases entries@.len() - i,
    {
        let (k, v) = &entries[i];
        if k.is_none() || v.is_none() {
            proof {
                let ms = mapping_view(entries@);
                assert(ms[i as int].0 is None || ms[i as int].1 is None);
                assert(!metadata_ok(metadata@));
            }
            push_diag(
                diagnostics,
                warning(
                    "invalid-metadata",
                    "`metadata` should be a mapping of string keys to string values".to_owned(),
                ),
            );
            return ;
        }
        i = i + 1;
    }
    proof {
        let ms = mapping_view(entries@);
        assert forall|j: int| 0 <= j < ms.len() implies (#[trigger] ms[j]).0 is Some && ms[j].1 is Some by {
            assert(entries@[j].0 is Some && entries@[j].1 is Some);
        }
        assert(diags_view(diagnostics@) =~= diags_view(old(diagnostics)@) + Seq::empty());
    }
}

/// Checks that `name` and `description` are there, and checks them.
pub fn validate_required_fields(path: &str, fm: &Frontmatter, diagnostics: &mut Vec<Diagnostic>)
    ensures
        diags_view(final(diagnostics)@) == diags_view(old(diagnostics)@) + required_diags(path@, fm@),
{
    match get_string(fm, "name") {
        Some(n) => validate_name(path, n.as_str(), diagnostics),
        None => push_diag(diagnostics, error("missing-name", "Required field `name` is missing".to_owned())),
    }
    let ghost mid = diags_view(diagnostics@);
    match get_string(fm, "description") {
        Some(d) => validate_description(d.as_str(), diagnostics),
        None => push_diag(
            diagnostics,
            error("missing-description", "Required field `description` is missing".to_owned()),
        ),
    }
    proof {
        assert(diags_view(diagnostics@) =~= diags_view(old(diagnostics)@) + required_diags(path@, fm@));
    }
}

/// Reports a `name` or `description` that is there but is not a string.
pub fn validate_field_types(fm: &Frontmatter, diagnostics: &mut Vec<Diagnostic>)
    ensures
        diags_view(final(diagnostics)@) == diags_view(old(diagnostics)@) + field_type_diags(fm@),
{
    if has_key(fm, "name") && get_string(fm, "name").is_none() {
        push_diag(diagnostics, error("invalid-name", "`name` must be a string".to_owned()));
    }
    let ghost mid = diags_view(diagnostics@);
    if has_key(fm, "description") && get_string(fm, "description").is_none() {
        push_diag(diagnostics, error("invalid-description", "`description` must be a string".to_owned()));
    }
    proof {
        assert(diags_view(diagnostics@) =~= diags_view(old(diagnostics)@) + field_type_diags(fm@));
    }
}

/// Checks the frontmatter of the skill directory `path`: its keys, `name`,
/// `description`, `compatibility` and `metadata`.
pub fn validate_frontmatter(path: &str, fm: &Frontmatter, diagnostics: &mut Vec<Diagnostic>)
    ensures
        diags_view(final(diagnostics)@) == diags_view(old(diagnostics)@) + frontmatter_diags(path@, fm@),
{
    validate_keys(fm, diagnostics);
    validate_required_fields(path, fm, diagnostics);
    validate_field_types(fm, diagnostics);
    validate_compatibility(fm, diagnostics);
    validate_metadata(fm, diagnostics);
    proof {
        assert(diags_view(diagnostics@) =~= diags_view(old(diagnostics)@) + frontmatter_diags(path@, fm@));
    }
}


/// The frontmatter may hold exactly the fields `name`, `description`,
/// `license`, `allowed-tools`, `metadata` and `compatibility`: a string key gets
/// an `unknown-field` error exactly where it is none of them.
pub proof fn lemma_allowed_fields(k: Seq<char>)
    ensures
        allowed_field(k) <==> (k == "name"@ || k == "description"@ || k == "license"@ || k
            == "allowed-tools"@ || k == "metadata"@ || k == "compatibility"@),
        key_diags(YamlNode::Str(k)).len() == 0 <==> (k == "name"@ || k == "description"@ || k
            == "license"@ || k == "allowed-tools"@ || k == "metadata"@ || k == "compatibility"@),
{
}

/// A `name` gets a `name-directory-mismatch` error exactly where the skill
/// directory has a file name that differs, as text, from the name; the error
/// names that directory.
pub proof fn lemma_mismatch_rule(path: Seq<char>, name: Seq<char>, matches: bool)
    ensures
        (exists|k: int|
            0 <= k < name_diags_for(path, name, matches).len() && (#[trigger] name_diags_for(
                path,
                name,
                matches,
            )[k]).code == "name-directory-mismatch"@) <==> (file_name(path) matches Some(d) && d
            != name),
        match file_name(path) {
            Some(d) => d != name ==> name_diags_for(path, name, matches).last() == diag(
                Severity::Error,
                "name-directory-mismatch"@,
                "`name` must match parent directory `"@ + d + "`"@,
            ),
            None => true,
        },
{
    let d = name_diags_for(path, name, matches);
    let m = "name-directory-mismatch"@;
    assert(m != "invalid-name"@) by {
        reveal_strlit("name-directory-mismatch");
        reveal_strlit("invalid-name");
        assert(m.len() != "invalid-name"@.len());
    }
    let a: Seq<DiagnosticView> = if name.len() == 0 || name.len() > 64 || !matches {
        seq![
            diag(
                Severity::Error,
                "invalid-name"@,
                "`name` must be 1-64 characters, lowercase [a-z0-9-], and cannot use leading, trailing, or consecutive hyphens"@,
            ),
        ]
    } else {
        Seq::empty()
    };
    let b: Seq<DiagnosticView> = if has_double_hyphen(name) {
        seq![diag(Severity::Error, "invalid-name"@, "`name` cannot contain consecutive hyphens"@)]
    } else {
        Seq::empty()
    };
    let c = d.skip((a.len() + b.len()) as int);
    assert(d == a + b + c);
    if file_name(path) matches Some(dn) && dn != name {
        assert(c.len() == 1);
        assert(d[d.len() - 1] == c[0]);
        assert(d.last() == c[0]);
    } else {
        assert(c.len() == 0);
        assert forall|k: int| 0 <= k < d.len() implies (#[trigger] d[k]).code != m by {
            if k < a.len() {
                assert(d[k] == a[k]);
            } else {
                assert(d[k] == b[k - a.len()]);
            }
        }
    }
}

/// A `description` gets an `invalid-description` error exactly where it has no
/// characters or more than 1024.
pub proof fn lemma_description_length(d: Seq<char>)
    ensures
        description_diags(d).len() > 0 <==> d.len() == 0 || d.len() > 1024,
        description_diags(d).len() <= 1,
{
}

/// A key that is a string and not an allowed field gets one `unknown-field`
/// error naming it; a key that is not a string gets one saying so.
pub proof fn lemma_unknown_key(k: YamlNode)
    ensures
        match node_text(k) {
            Some(t) => !(t == "name"@ || t == "description"@ || t == "license"@ || t
                == "allowed-tools"@ || t == "metadata"@ || t == "compatibility"@) ==> key_diags(k)
                == seq![diag(Severity::Error, "unknown-field"@, "Unknown frontmatter field `"@ + t + "`"@)],
            None => key_diags(k) == seq![
                diag(Severity::Error, "unknown-field"@, "Frontmatter keys must be strings"@),
            ],
        },
{
}

/// `metadata` gets one `invalid-metadata` warning exactly where it is there and
/// is not a mapping whose keys and values are all strings.
pub proof fn lemma_metadata_rule(es: Seq<(YamlNode, YamlNode)>)
    ensures
        metadata_diags(es).len() == if lookup(es, "metadata"@) matches Some(m) && !(m matches YamlNode::Mapping(ms) && forall|i: int| 0 <= i < ms.len() ==> (#[trigger] ms[i]).0 is Some && ms[i].1 is Some) {
            1int
        } else {
            0int
        },
        metadata_diags(es).len() == 1 ==> metadata_diags(es)[0] == diag(
            Severity::Warning,
            "invalid-metadata"@,
            "`metadata` should be a mapping of string keys to string values"@,
        ),
{
}
} // verus!
