//! Laws on the frontmatter checks, rule by rule: which diagnostics of each rule
//! the frontmatter gets, whatever else it holds.
use vstd::prelude::*;
use crate::diagnostic::{DiagnosticView, Severity, diag};
use crate::frontmatter::{
    compatibility_diags, description_diags, description_part, description_type_part,
    frontmatter_diags, key_diags, lookup, lookup_text, metadata_diags, name_diags, name_part,
    name_type_part, unknown_field_diags,
};
use crate::yaml::YamlNode;

verus! {

/// The diagnostics of `ds` whose rule is `c`, in order.
pub open spec fn with_code(ds: Seq<DiagnosticView>, c: Seq<char>) -> Seq<DiagnosticView>
    decreases ds.len(),
{
    if ds.len() == 0 {
        Seq::empty()
    } else {
        with_code(ds.drop_last(), c) + if ds.last().code == c {
            seq![ds.last()]
        } else {
            Seq::<DiagnosticView>::empty()
        }
    }
}

/// Picking the diagnostics of a rule commutes with joining sequences.
pub proof fn lemma_with_code_concat(a: Seq<DiagnosticView>, b: Seq<DiagnosticView>, c: Seq<char>)
    ensures
        with_code(a + b, c) == with_code(a, c) + with_code(b, c),
    decreases b.len(),
{
    if b.len() == 0 {
        assert(a + b =~= a);
        assert(with_code(a, c) + with_code(b, c) =~= with_code(a, c));
    } else {
        lemma_with_code_concat(a, b.drop_last(), c);
        assert((a + b).drop_last() =~= a + b.drop_last());
        assert((a + b).last() == b.last());
        assert(with_code(a + b, c) =~= with_code(a, c) + with_code(b, c));
    }
}

/// A sequence with no diagnostic of rule `c` has none to pick.
proof fn lemma_with_code_none(ds: Seq<DiagnosticView>, c: Seq<char>)
    requires
        forall|k: int| 0 <= k < ds.len() ==> (#[trigger] ds[k]).code != c,
    ensures
        with_code(ds, c) == Seq::<DiagnosticView>::empty(),
    decreases ds.len(),
{
    if ds.len() > 0 {
        assert forall|k: int| 0 <= k < ds.drop_last().len() implies (#[trigger] ds.drop_last()[k]).code
            != c by {
            assert(ds.drop_last()[k] == ds[k]);
        }
        lemma_with_code_none(ds.drop_last(), c);
        assert(ds[ds.len() - 1] == ds.last());
    }
}

/// A sequence whose diagnostics are all of rule `c` is what picking them gives.
proof fn lemma_with_code_all(ds: Seq<DiagnosticView>, c: Seq<char>)
    requires
        forall|k: int| 0 <= k < ds.len() ==> (#[trigger] ds[k]).code == c,
    ensures
        with_code(ds, c) == ds,
    decreases ds.len(),
{
    if ds.len() > 0 {
        assert forall|k: int| 0 <= k < ds.drop_last().len() implies (#[trigger] ds.drop_last()[k]).code
            == c by {
            assert(ds.drop_last()[k] == ds[k]);
        }
        lemma_with_code_all(ds.drop_last(), c);
        assert(ds[ds.len() - 1] == ds.last());
        assert(ds.drop_last().push(ds.last()) =~= ds);
    }
}

/// Picking from a sequence of at most one diagnostic.
proof fn lemma_with_code_small(ds: Seq<DiagnosticView>, c: Seq<char>)
    requires
        ds.len() <= 1,
    ensures
        with_code(ds, c) == if ds.len() == 1 && ds[0].code == c {
            ds
        } else {
            Seq::<DiagnosticView>::empty()
        },
{
    if ds.len() == 1 {
        assert(ds.drop_last() =~= Seq::<DiagnosticView>::empty());
        assert(ds.last() == ds[0]);
        assert(with_code(ds.drop_last(), c) == Seq::<DiagnosticView>::empty());
        if ds[0].code == c {
            assert(Seq::<DiagnosticView>::empty() + seq![ds[0]] =~= ds);
        } else {
            assert(Seq::<DiagnosticView>::empty() + Seq::<DiagnosticView>::empty() =~= Seq::<
                DiagnosticView,
            >::empty());
        }
    }
}

/// The rule IDs of the frontmatter checks differ in length or in their first character.
proof fn lemma_code_shapes()
    ensures
        "unknown-field"@.len() == 13 && "unknown-field"@[0] == 'u',
        "missing-name"@.len() == 12 && "missing-name"@[0] == 'm',
        "invalid-name"@.len() == 12 && "invalid-name"@[0] == 'i',
        "name-directory-mismatch"@.len() == 23 && "name-directory-mismatch"@[0] == 'n',
        "missing-description"@.len() == 19 && "missing-description"@[0] == 'm',
        "invalid-description"@.len() == 19 && "invalid-description"@[0] == 'i',
        "invalid-compatibility"@.len() == 21 && "invalid-compatibility"@[0] == 'i',
        "invalid-metadata"@.len() == 16 && "invalid-metadata"@[0] == 'i',
{
    reveal_strlit("unknown-field");
    reveal_strlit("missing-name");
    reveal_strlit("invalid-name");
    reveal_strlit("name-directory-mismatch");
    reveal_strlit("missing-description");
    reveal_strlit("invalid-description");
    reveal_strlit("invalid-compatibility");
    reveal_strlit("invalid-metadata");
}

/// The diagnostics about keys are all `unknown-field`.
proof fn lemma_unknown_codes(es: Seq<(YamlNode, YamlNode)>)
    ensures
        forall|k: int|
            0 <= k < unknown_field_diags(es).len() ==> (#[trigger] unknown_field_diags(es)[k]).code
                == "unknown-field"@,
    decreases es.len(),
{
    if es.len() > 0 {
        lemma_unknown_codes(es.drop_last());
        let a = unknown_field_diags(es.drop_last());
        let b = key_diags(es.last().0);
        assert forall|k: int| 0 <= k < (a + b).len() implies (#[trigger] (a + b)[k]).code
            == "unknown-field"@ by {
            if k < a.len() {
                assert((a + b)[k] == a[k]);
            } else {
                assert((a + b)[k] == b[k - a.len()]);
            }
        }
    }
}

/// The codes of the `name` diagnostics.
proof fn lemma_name_codes(path: Seq<char>, n: Seq<char>)
    ensures
        forall|k: int|
            0 <= k < name_diags(path, n).len() ==> (#[trigger] name_diags(path, n)[k]).code
                == "invalid-name"@ || name_diags(path, n)[k].code == "name-directory-mismatch"@,
{
}

/// The diagnostics of the frontmatter with the rule `c`, for a rule that is
/// neither about keys nor about `metadata`, are those of the field checks.
proof fn lemma_field_split(path: Seq<char>, es: Seq<(YamlNode, YamlNode)>, c: Seq<char>)
    requires
        c != "unknown-field"@,
        c != "invalid-metadata"@,
    ensures
        with_code(frontmatter_diags(path, es), c) == with_code(name_part(path, es), c) + with_code(
            description_part(es),
            c,
        ) + with_code(name_type_part(es), c) + with_code(description_type_part(es), c) + with_code(
            compatibility_diags(es),
            c,
        ),
{
    let u = unknown_field_diags(es);
    let np = name_part(path, es);
    let dp = description_part(es);
    let tn = name_type_part(es);
    let td = description_type_part(es);
    let cp = compatibility_diags(es);
    let m = metadata_diags(es);
    lemma_unknown_codes(es);
    lemma_with_code_none(u, c);
    lemma_with_code_small(m, c);
    assert(frontmatter_diags(path, es) == u + (np + dp) + (tn + td) + cp + m);
    lemma_with_code_concat(np, dp, c);
    lemma_with_code_concat(tn, td, c);
    lemma_with_code_concat(u, np + dp, c);
    lemma_with_code_concat(u + (np + dp), tn + td, c);
    lemma_with_code_concat(u + (np + dp) + (tn + td), cp, c);
    lemma_with_code_concat(u + (np + dp) + (tn + td) + cp, m, c);
    assert(with_code(frontmatter_diags(path, es), c) =~= with_code(np, c) + with_code(dp, c)
        + with_code(tn, c) + with_code(td, c) + with_code(cp, c));
}

/// The `name` rules of the README: a frontmatter without a text `name` gets
/// one `missing-name` error (and, where `name` is there but not a string, one
/// `invalid-name` error saying so); a frontmatter with a text `name` gets no
/// `missing-name`, and its `invalid-name` and `name-directory-mismatch` errors
/// are exactly those of checking that text.
pub proof fn lemma_name_field(path: Seq<char>, es: Seq<(YamlNode, YamlNode)>)
    ensures
        with_code(frontmatter_diags(path, es), "missing-name"@) == if lookup_text(es, "name"@) is None {
            seq![diag(Severity::Error, "missing-name"@, "Required field `name` is missing"@)]
        } else {
            Seq::<DiagnosticView>::empty()
        },
        with_code(frontmatter_diags(path, es), "invalid-name"@) == match lookup_text(es, "name"@) {
            Some(n) => with_code(name_diags(path, n), "invalid-name"@),
            None => if lookup(es, "name"@) is Some {
                seq![diag(Severity::Error, "invalid-name"@, "`name` must be a string"@)]
            } else {
                Seq::<DiagnosticView>::empty()
            },
        },
        with_code(frontmatter_diags(path, es), "name-directory-mismatch"@) == match lookup_text(
            es,
            "name"@,
        ) {
            Some(n) => with_code(name_diags(path, n), "name-directory-mismatch"@),
            None => Seq::<DiagnosticView>::empty(),
        },
{
    lemma_code_shapes();
    let dp = description_part(es);
    let tn = name_type_part(es);
    let td = description_type_part(es);
    let cp = compatibility_diags(es);
    let e = Seq::<DiagnosticView>::empty();
    assert forall|k: int| 0 <= k < dp.len() implies (#[trigger] dp[k]).code == "missing-description"@
        || dp[k].code == "invalid-description"@ by {}
    assert forall|k: int| 0 <= k < cp.len() implies (#[trigger] cp[k]).code
        == "invalid-compatibility"@ by {}
    lemma_with_code_small(tn, "missing-name"@);
    lemma_with_code_small(tn, "invalid-name"@);
    lemma_with_code_small(tn, "name-directory-mismatch"@);
    lemma_with_code_small(td, "missing-name"@);
    lemma_with_code_small(td, "invalid-name"@);
    lemma_with_code_small(td, "name-directory-mismatch"@);
    let cs = seq!["missing-name"@, "invalid-name"@, "name-directory-mismatch"@];
    assert forall|i: int| 0 <= i < 3 implies with_code(dp, #[trigger] cs[i]) == e && with_code(
        cp,
        cs[i],
    ) == e by {
        lemma_with_code_none(dp, cs[i]);
        lemma_with_code_none(cp, cs[i]);
    }
    assert(cs[0] == "missing-name"@ && cs[1] == "invalid-name"@ && cs[2]
        == "name-directory-mismatch"@);
    lemma_field_split(path, es, "missing-name"@);
    lemma_field_split(path, es, "invalid-name"@);
    lemma_field_split(path, es, "name-directory-mismatch"@);
    match lookup_text(es, "name"@) {
        Some(n) => {
            lemma_name_codes(path, n);
            lemma_with_code_none(name_diags(path, n), "missing-name"@);
            assert(with_code(frontmatter_diags(path, es), "missing-name"@) =~= e);
            assert(with_code(frontmatter_diags(path, es), "invalid-name"@) =~= with_code(
                name_diags(path, n),
                "invalid-name"@,
            ));
            assert(with_code(frontmatter_diags(path, es), "name-directory-mismatch"@) =~= with_code(
                name_diags(path, n),
                "name-directory-mismatch"@,
            ));
        },
        None => {
            let np = name_part(path, es);
            lemma_with_code_small(np, "missing-name"@);
            lemma_with_code_small(np, "invalid-name"@);
            lemma_with_code_small(np, "name-directory-mismatch"@);
            assert(with_code(frontmatter_diags(path, es), "missing-name"@) =~= np);
            assert(with_code(frontmatter_diags(path, es), "invalid-name"@) =~= tn);
            assert(with_code(frontmatter_diags(path, es), "name-directory-mismatch"@) =~= e);
        },
    }
}

/// The `description` rules of the README: a frontmatter without a text
/// `description` gets one `missing-description` error (and, where it is there
/// but not a string, one `invalid-description` error saying so); with a text
/// `description`, the only `invalid-description` error is the one for a length
/// outside 1-1024 characters.
pub proof fn lemma_description_field(path: Seq<char>, es: Seq<(YamlNode, YamlNode)>)
    ensures
        with_code(frontmatter_diags(path, es), "missing-description"@) == if lookup_text(
            es,
            "description"@,
        ) is None {
            seq![
                diag(
                    Severity::Error,
                    "missing-description"@,
                    "Required field `description` is missing"@,
                ),
            ]
        } else {
            Seq::<DiagnosticView>::empty()
        },
        with_code(frontmatter_diags(path, es), "invalid-description"@) == match lookup_text(
            es,
            "description"@,
        ) {
            Some(d) => description_diags(d),
            None => if lookup(es, "description"@) is Some {
                seq![diag(Severity::Error, "invalid-description"@, "`description` must be a string"@)]
            } else {
                Seq::<DiagnosticView>::empty()
            },
        },
{
    lemma_code_shapes();
    let np = name_part(path, es);
    let dp = description_part(es);
    let tn = name_type_part(es);
    let td = description_type_part(es);
    let cp = compatibility_diags(es);
    let e = Seq::<DiagnosticView>::empty();
    assert forall|k: int| 0 <= k < np.len() implies (#[trigger] np[k]).code == "missing-name"@
        || np[k].code == "invalid-name"@ || np[k].code == "name-directory-mismatch"@ by {
        if let Some(n) = lookup_text(es, "name"@) {
            lemma_name_codes(path, n);
        }
    }
    assert forall|k: int| 0 <= k < cp.len() implies (#[trigger] cp[k]).code
        == "invalid-compatibility"@ by {}
    lemma_with_code_none(np, "missing-description"@);
    lemma_with_code_none(np, "invalid-description"@);
    lemma_with_code_none(cp, "missing-description"@);
    lemma_with_code_none(cp, "invalid-description"@);
    lemma_with_code_small(tn, "missing-description"@);
    lemma_with_code_small(tn, "invalid-description"@);
    lemma_with_code_small(td, "missing-description"@);
    lemma_with_code_small(td, "invalid-description"@);
    lemma_with_code_small(dp, "missing-description"@);
    lemma_with_code_small(dp, "invalid-description"@);
    lemma_field_split(path, es, "missing-description"@);
    lemma_field_split(path, es, "invalid-description"@);
    assert(with_code(frontmatter_diags(path, es), "missing-description"@) =~= with_code(
        dp,
        "missing-description"@,
    ));
    assert(with_code(frontmatter_diags(path, es), "invalid-description"@) =~= with_code(
        dp,
        "invalid-description"@,
    ) + with_code(td, "invalid-description"@));
}

/// The `compatibility` rule of the README: a frontmatter gets at most one
/// `invalid-compatibility` error, and gets it exactly where `compatibility` is
/// there and is not a text of 1-500 characters.
pub proof fn lemma_compatibility_field(path: Seq<char>, es: Seq<(YamlNode, YamlNode)>)
    ensures
        with_code(frontmatter_diags(path, es), "invalid-compatibility"@) == compatibility_diags(es),
        compatibility_diags(es).len() == if lookup(es, "compatibility"@) is Some && !(match lookup_text(
            es,
            "compatibility"@,
        ) {
            Some(t) => 1 <= t.len() <= 500,
            None => false,
        }) {
            1nat
        } else {
            0nat
        },
{
    lemma_code_shapes();
    let c = "invalid-compatibility"@;
    let np = name_part(path, es);
    let dp = description_part(es);
    let tn = name_type_part(es);
    let td = description_type_part(es);
    let cp = compatibility_diags(es);
    assert forall|k: int| 0 <= k < np.len() implies (#[trigger] np[k]).code != c by {
        if let Some(n) = lookup_text(es, "name"@) {
            lemma_name_codes(path, n);
        }
    }
    assert forall|k: int| 0 <= k < dp.len() implies (#[trigger] dp[k]).code != c by {}
    lemma_with_code_none(np, c);
    lemma_with_code_none(dp, c);
    lemma_with_code_small(tn, c);
    lemma_with_code_small(td, c);
    lemma_with_code_small(cp, c);
    lemma_field_split(path, es, c);
    assert(with_code(frontmatter_diags(path, es), c) =~= cp);
}

} // verus!
