//! The result of a run: the skills in path order, and the counts of errors and warnings.
use vstd::prelude::*;
use crate::diagnostic::{DiagnosticView, Severity, diags_view};
use crate::order::{ascending, lemma_ascending_unique, strict_total};
use crate::path::{Comp, ParsedPath, Rank, compare_paths, components, comps_lt, lemma_comps_lt_facts, parse_path};
use crate::skill::SkillResult;

verus! {

/// The key by which skills are ordered: the components of their path.
pub open spec fn path_key(s: SkillResult) -> Seq<Comp> {
    components(s.path@)
}

/// A key with the position it came from comes before another: its key is smaller,
/// or the keys are equal and it came first.
pub open spec fn keyed_lt(a: (Seq<Comp>, int), b: (Seq<Comp>, int)) -> bool {
    comps_lt(a.0, b.0) || (a.0 == b.0 && a.1 < b.1)
}

/// The order of keyed positions is transitive.
pub proof fn lemma_keyed_lt_transitive(a: (Seq<Comp>, int), b: (Seq<Comp>, int), c: (Seq<Comp>, int))
    requires
        keyed_lt(a, b),
        keyed_lt(b, c),
    ensures
        keyed_lt(a, c),
{
    lemma_comps_lt_facts(a.0, b.0, c.0);
}

/// `b` is `a` sorted by path, keeping the order of equal paths: `b[k]` is
/// `a[perm[k]]`, `perm` takes each position of `a` once, and the keyed positions increase.
pub open spec fn is_stable_path_sort(a: Seq<SkillResult>, b: Seq<SkillResult>, perm: Seq<int>) -> bool {
    &&& b.len() == a.len()
    &&& perm.len() == a.len()
    &&& forall|k: int| 0 <= k < b.len() ==> 0 <= #[trigger] perm[k] < a.len() && b[k] == a[perm[k]]
    &&& forall|k: int, l: int| 0 <= k < l < b.len() ==> #[trigger] perm[k] != #[trigger] perm[l]
    &&& forall|i: int| 0 <= i < a.len() ==> #[trigger] perm.contains(i)
    &&& forall|k: int, l: int|
        0 <= k < l < b.len() ==> keyed_lt(
            (path_key(#[trigger] b[k]), perm[k]),
            (path_key(#[trigger] b[l]), perm[l]),
        )
}

/// Sorts skills by path, in the order of `std::path::Path`, keeping the order of equal paths.
pub fn sort_skills(skills: Vec<SkillResult>) -> (sorted: Vec<SkillResult>)
    ensures
        exists|perm: Seq<int>| is_stable_path_sort(skills@, sorted@, perm),
{
    let ghost orig = skills@;
    let n = skills.len();
    let mut input = skills;
    let mut sorted: Vec<SkillResult> = Vec::new();
    let mut keys: Vec<ParsedPath> = Vec::new();
    let ghost mut perm: Seq<int> = Seq::empty();
    while input.len() > 0
        invariant
            n == orig.len(),
            input@ == orig.take(input@.len() as int),
            sorted@.len() == keys@.len(),
            sorted@.len() == perm.len(),
            sorted@.len() + input@.len() == n,
            forall|k: int|
                0 <= k < keys@.len() ==> (#[trigger] keys@[k]).wf() && keys@[k].comps() == path_key(
                    sorted@[k],
                ),
            forall|k: int|
                0 <= k < sorted@.len() ==> input@.len() <= #[trigger] perm[k] < n && sorted@[k]
                    == orig[perm[k]],
            forall|k: int, l: int| 0 <= k < l < sorted@.len() ==> #[trigger] perm[k] != #[trigger] perm[l],
            forall|t: int| input@.len() <= t < n ==> #[trigger] perm.contains(t),
            forall|k: int, l: int|
                0 <= k < l < sorted@.len() ==> keyed_lt(
                    (path_key(#[trigger] sorted@[k]), perm[k]),
                    (path_key(#[trigger] sorted@[l]), perm[l]),
                ),
        decreases input@.len(),
    {
        let x = input.pop().unwrap();
        let i = input.len();
        let kx = parse_path(x.path.as_str());
        let mut j: usize = 0;
        while j < keys.len() && compare_paths(&keys[j], &kx) == Rank::Before
            invariant
                j <= keys@.len(),
                kx.wf(),
                forall|k: int| 0 <= k < keys@.len() ==> (#[trigger] keys@[k]).wf(),
                forall|k: int| 0 <= k < j ==> comps_lt((#[trigger] keys@[k]).comps(), kx.comps()),
            decreases keys@.len() - j,
        {
            j = j + 1;
        }
        let ghost old_sorted = sorted@;
        let ghost old_keys = keys@;
        let ghost old_perm = perm;
        let ghost xk = (path_key(x), i as int);
        proof {
            assert(kx.comps() == path_key(x));
            assert forall|k: int| 0 <= k < j implies keyed_lt(
                (path_key(#[trigger] old_sorted[k]), old_perm[k]),
                xk,
            ) by {
                assert(old_keys[k].comps() == path_key(old_sorted[k]));
            }
            if j < old_keys.len() {
                assert(old_keys[j as int].comps() == path_key(old_sorted[j as int]));
                lemma_comps_lt_facts(old_keys[j as int].comps(), kx.comps(), kx.comps());
                assert(keyed_lt(xk, (path_key(old_sorted[j as int]), old_perm[j as int])));
            }
        }
        keys.insert(j, kx);
        sorted.insert(j, x);
        proof {
            perm = old_perm.insert(j as int, i as int);
            assert(input@ =~= orig.take(input@.len() as int));
            assert forall|k: int, l: int| 0 <= k < l < sorted@.len() implies keyed_lt(
                (path_key(#[trigger] sorted@[k]), perm[k]),
                (path_key(#[trigger] sorted@[l]), perm[l]),
            ) by {
                if l < j {
                    assert(sorted@[k] == old_sorted[k] && sorted@[l] == old_sorted[l]);
                } else if l == j {
                    assert(sorted@[l] == x && perm[l] == i);
                    assert(sorted@[k] == old_sorted[k]);
                } else if k == j {
                    assert(sorted@[k] == x && perm[k] == i);
                    assert(sorted@[l] == old_sorted[l - 1]);
                    if l - 1 > j {
                        lemma_keyed_lt_transitive(
                            xk,
                            (path_key(old_sorted[j as int]), old_perm[j as int]),
                            (path_key(old_sorted[l - 1]), old_perm[l - 1]),
                        );
                    }
                } else if k < j {
                    assert(sorted@[k] == old_sorted[k] && sorted@[l] == old_sorted[l - 1]);
                } else {
                    assert(sorted@[k] == old_sorted[k - 1] && sorted@[l] == old_sorted[l - 1]);
                }
            }
            assert forall|k: int| 0 <= k < keys@.len() implies (#[trigger] keys@[k]).wf() && keys@[k].comps() == path_key(sorted@[k]) by {
                if k < j {
                    assert(keys@[k] == old_keys[k] && sorted@[k] == old_sorted[k]);
                } else if k > j {
                    assert(keys@[k] == old_keys[k - 1] && sorted@[k] == old_sorted[k - 1]);
                }
            }
            assert forall|k: int| 0 <= k < sorted@.len() implies input@.len() <= #[trigger] perm[k] < n && sorted@[k] == orig[perm[k]] by {
                if k < j {
                    assert(perm[k] == old_perm[k] && sorted@[k] == old_sorted[k]);
                } else if k > j {
                    assert(perm[k] == old_perm[k - 1] && sorted@[k] == old_sorted[k - 1]);
                } else {
                    assert(orig[i as int] == x);
                }
            }
            assert forall|t: int| input@.len() <= t < n implies #[trigger] perm.contains(t) by {
                if t == i {
                    assert(perm[j as int] == i);
                } else {
                    assert(old_perm.contains(t));
                    let k = choose|k: int| 0 <= k < old_perm.len() && old_perm[k] == t;
                    if k < j {
                        assert(perm[k] == t);
                    } else {
                        assert(perm[k + 1] == t);
                    }
                }
            }
            assert forall|k: int, l: int| 0 <= k < l < sorted@.len() implies #[trigger] perm[k] != #[trigger] perm[l] by {
                if k < j && l < j {
                } else if k < j && l == j {
                    assert(perm[k] == old_perm[k]);
                } else if k < j {
                    assert(perm[k] == old_perm[k] && perm[l] == old_perm[l - 1]);
                } else if k == j {
                    assert(perm[l] == old_perm[l - 1]);
                } else {
                    assert(perm[k] == old_perm[k - 1] && perm[l] == old_perm[l - 1]);
                }
            }
        }
    }
    proof {
        assert(is_stable_path_sort(orig, sorted@, perm));
    }
    sorted
}


/// The number of diagnostics of severity `sev` in `ds`.
pub open spec fn count_severity(ds: Seq<DiagnosticView>, sev: Severity) -> nat
    decreases ds.len(),
{
    if ds.len() == 0 {
        0
    } else {
        count_severity(ds.drop_last(), sev) + if ds.last().severity == sev {
            1nat
        } else {
            0nat
        }
    }
}

/// The sum of `f` over the skills `s`.
pub open spec fn sum_skills(s: Seq<SkillResult>, f: spec_fn(SkillResult) -> nat) -> nat
    decreases s.len(),
{
    if s.len() == 0 {
        0
    } else {
        sum_skills(s.drop_last(), f) + f(s.last())
    }
}

/// The number of diagnostics of severity `sev` of a skill.
pub open spec fn severity_summand(sev: Severity) -> spec_fn(SkillResult) -> nat {
    |r: SkillResult| count_severity(diags_view(r.diagnostics@), sev)
}

/// The number of diagnostics of a skill.
pub open spec fn length_summand() -> spec_fn(SkillResult) -> nat {
    |r: SkillResult| r.diagnostics@.len()
}

/// The number of diagnostics of severity `sev` over all the skills `s`.
pub open spec fn severity_total(s: Seq<SkillResult>, sev: Severity) -> nat {
    sum_skills(s, severity_summand(sev))
}

/// The number of diagnostics over all the skills `s`.
pub open spec fn diagnostic_total(s: Seq<SkillResult>) -> nat {
    sum_skills(s, length_summand())
}

/// The sum over a sequence is the sum without one item plus that item.
pub proof fn lemma_sum_remove(s: Seq<SkillResult>, p: int, f: spec_fn(SkillResult) -> nat)
    requires
        0 <= p < s.len(),
    ensures
        sum_skills(s, f) == sum_skills(s.remove(p), f) + f(s[p]),
    decreases s.len(),
{
    if p == s.len() - 1 {
        assert(s.remove(p) =~= s.drop_last());
    } else {
        lemma_sum_remove(s.drop_last(), p, f);
        assert(s.remove(p).drop_last() =~= s.drop_last().remove(p));
        assert(s.remove(p).last() == s.last());
    }
}

/// Sums are the same over a sequence and over any reordering of it.
pub proof fn lemma_sum_permutation(
    a: Seq<SkillResult>,
    b: Seq<SkillResult>,
    perm: Seq<int>,
    f: spec_fn(SkillResult) -> nat,
)
    requires
        b.len() == a.len(),
        perm.len() == a.len(),
        forall|k: int| 0 <= k < b.len() ==> 0 <= #[trigger] perm[k] < a.len() && b[k] == a[perm[k]],
        forall|k: int, l: int| 0 <= k < l < b.len() ==> #[trigger] perm[k] != #[trigger] perm[l],
    ensures
        sum_skills(a, f) == sum_skills(b, f),
    decreases b.len(),
{
    if b.len() > 0 {
        let n = b.len() - 1;
        let p = perm[n];
        let a1 = a.remove(p);
        let b1 = b.drop_last();
        let perm1 = Seq::new(n as nat, |k: int| if perm[k] > p { perm[k] - 1 } else { perm[k] });
        assert forall|k: int| 0 <= k < b1.len() implies 0 <= #[trigger] perm1[k] < a1.len() && b1[k] == a1[perm1[k]] by {
            assert(perm[k] != perm[n]);
            assert(b[k] == a[perm[k]]);
        }
        assert forall|k: int, l: int| 0 <= k < l < b1.len() implies #[trigger] perm1[k] != #[trigger] perm1[l] by {
            assert(perm[k] != perm[l]);
            assert(perm[k] != p && perm[l] != p);
        }
        lemma_sum_permutation(a1, b1, perm1, f);
        lemma_sum_remove(a, p, f);
        assert(b.last() == a[p]);
    }
}

/// The result of linting a tree of skills.
#[derive(Debug)]
pub struct LintResult {
    pub root: String,
    pub error_count: usize,
    pub warning_count: usize,
    pub skills: Vec<SkillResult>,
}

/// `n`, or the largest `usize` where `n` is larger.
pub open spec fn capped(n: nat) -> nat {
    if n <= usize::MAX {
        n
    } else {
        usize::MAX as nat
    }
}

/// The number of diagnostics of severity `sev` in `skills`, or the largest
/// `usize` where there are more.
fn count_all(skills: &Vec<SkillResult>, sev: Severity) -> (n: usize)
    ensures
        n == capped(severity_total(skills@, sev)),
{
    let ghost fc = severity_summand(sev);
    let mut n: usize = 0;
    let mut i: usize = 0;
    proof {
        assert(skills@.take(0) =~= Seq::<SkillResult>::empty());
        assert(skills@.skip(0) =~= skills@);
    }
    while i < skills.len()
        invariant
            i <= skills@.len(),
            fc == severity_summand(sev),
            n == capped(sum_skills(skills@.take(i as int), fc)),
        decreases skills@.len() - i,
    {
        let ds = &skills[i].diagnostics;
        let mut c: usize = 0;
        let mut j: usize = 0;
        proof {
            assert(ds@.take(0) =~= Seq::<crate::diagnostic::Diagnostic>::empty());
            assert(diags_view(ds@.take(0)) =~= Seq::<DiagnosticView>::empty());
        }
        while j < ds.len()
            invariant
                j <= ds@.len(),
                c == count_severity(diags_view(ds@.take(j as int)), sev),
                c <= j,
            decreases ds@.len() - j,
        {
            proof {
                assert(diags_view(ds@.take(j + 1)).drop_last() =~= diags_view(ds@.take(j as int)));
                assert(diags_view(ds@.take(j + 1)).last() == ds@[j as int]@);
            }
            if ds[j].severity == sev {
                c = c + 1;
            }
            j = j + 1;
        }
        proof {
            assert(ds@.take(j as int) =~= ds@);
            assert(skills@.take(i + 1).drop_last() =~= skills@.take(i as int));
            assert(skills@.take(i + 1).last() == skills@[i as int]);
        }
        n = n.saturating_add(c);
        i = i + 1;
    }
    proof {
        assert(skills@.take(i as int) =~= skills@);
    }
    n
}

/// Collects the results of linting the skills found under `root`: the skills in
/// path order, and the numbers of errors and warnings among their diagnostics
/// (each capped at the largest `usize`, which no run that fits in memory reaches).
pub fn lint_skills(root: String, skills: Vec<SkillResult>) -> (r: LintResult)
    ensures
        r.root == root,
        exists|perm: Seq<int>| is_stable_path_sort(skills@, r.skills@, perm),
        r.error_count == capped(severity_total(r.skills@, Severity::Error)),
        r.warning_count == capped(severity_total(r.skills@, Severity::Warning)),
{
    let ghost input = skills@;
    let sorted = sort_skills(skills);
    let ghost perm = choose|perm: Seq<int>| is_stable_path_sort(input, sorted@, perm);
    let error_count = count_all(&sorted, Severity::Error);
    let warning_count = count_all(&sorted, Severity::Warning);
    let r = LintResult { root, error_count, warning_count, skills: sorted };
    assert(is_stable_path_sort(input, r.skills@, perm));
    r
}


/// The order of keyed positions is a strict total order.
pub proof fn lemma_keyed_lt_strict_total()
    ensures
        strict_total(|x: (Seq<Comp>, int), y: (Seq<Comp>, int)| keyed_lt(x, y)),
{
    assert forall|x: (Seq<Comp>, int)| !keyed_lt(x, x) by {
        lemma_comps_lt_facts(x.0, x.0, x.0);
    }
    assert forall|x: (Seq<Comp>, int), y: (Seq<Comp>, int), z: (Seq<Comp>, int)|
        keyed_lt(x, y) && keyed_lt(y, z) implies keyed_lt(x, z) by {
        lemma_keyed_lt_transitive(x, y, z);
    }
    assert forall|x: (Seq<Comp>, int), y: (Seq<Comp>, int)| x != y implies keyed_lt(x, y) || keyed_lt(y, x) by {
        lemma_comps_lt_facts(x.0, y.0, x.0);
    }
}

/// The keyed positions of a sorted result.
pub open spec fn keyed_positions(b: Seq<SkillResult>, perm: Seq<int>) -> Seq<(Seq<Comp>, int)> {
    Seq::new(b.len(), |k: int| (path_key(b[k]), perm[k]))
}

/// The keyed positions of a stable sort ascend, and are those of the input.
proof fn lemma_keyed_positions(a: Seq<SkillResult>, b: Seq<SkillResult>, perm: Seq<int>)
    requires
        is_stable_path_sort(a, b, perm),
    ensures
        ascending(keyed_positions(b, perm), |x: (Seq<Comp>, int), y: (Seq<Comp>, int)| keyed_lt(x, y)),
        forall|z: (Seq<Comp>, int)|
            keyed_positions(b, perm).contains(z) <==> (0 <= z.1 < a.len() && z.0 == path_key(a[z.1])),
{
    let q = keyed_positions(b, perm);
    assert forall|i: int, j: int| 0 <= i < j < q.len() implies keyed_lt(#[trigger] q[i], #[trigger] q[j]) by {
        assert(keyed_lt((path_key(b[i]), perm[i]), (path_key(b[j]), perm[j])));
    }
    assert forall|z: (Seq<Comp>, int)|
        q.contains(z) <==> (0 <= z.1 < a.len() && z.0 == path_key(a[z.1])) by {
        if q.contains(z) {
            let k = choose|k: int| 0 <= k < q.len() && q[k] == z;
            assert(b[k] == a[perm[k]]);
        }
        if 0 <= z.1 < a.len() && z.0 == path_key(a[z.1]) {
            assert(perm.contains(z.1));
            let k = choose|k: int| 0 <= k < perm.len() && perm[k] == z.1;
            assert(b[k] == a[perm[k]]);
            assert(q[k] == z);
        }
    }
}

/// The order of a run's skills is determined by the skills: any two stable
/// sorts of the same skills by path are the same sequence.
pub proof fn lemma_path_sort_unique(
    a: Seq<SkillResult>,
    b1: Seq<SkillResult>,
    p1: Seq<int>,
    b2: Seq<SkillResult>,
    p2: Seq<int>,
)
    requires
        is_stable_path_sort(a, b1, p1),
        is_stable_path_sort(a, b2, p2),
    ensures
        b1 == b2,
{
    let lt = |x: (Seq<Comp>, int), y: (Seq<Comp>, int)| keyed_lt(x, y);
    lemma_keyed_lt_strict_total();
    lemma_keyed_positions(a, b1, p1);
    lemma_keyed_positions(a, b2, p2);
    let q1 = keyed_positions(b1, p1);
    let q2 = keyed_positions(b2, p2);
    assert forall|z: (Seq<Comp>, int)| q1.contains(z) <==> q2.contains(z) by {}
    lemma_ascending_unique(q1, q2, lt);
    assert forall|k: int| 0 <= k < b1.len() implies b1[k] == b2[k] by {
        assert(q1[k] == q2[k]);
        assert(p1[k] == p2[k]);
    }
    assert(b1 =~= b2);
}

/// Sorting the skills of a run does not change how many errors, warnings or
/// diagnostics they hold.
pub proof fn lemma_counts_survive_sort(a: Seq<SkillResult>, b: Seq<SkillResult>, perm: Seq<int>)
    requires
        is_stable_path_sort(a, b, perm),
    ensures
        severity_total(b, Severity::Error) == severity_total(a, Severity::Error),
        severity_total(b, Severity::Warning) == severity_total(a, Severity::Warning),
        diagnostic_total(b) == diagnostic_total(a),
{
    lemma_sum_permutation(a, b, perm, severity_summand(Severity::Error));
    lemma_sum_permutation(a, b, perm, severity_summand(Severity::Warning));
    lemma_sum_permutation(a, b, perm, length_summand());
}

/// Each diagnostic is an error or a warning, so the two counts add up to all of them.
pub proof fn lemma_severities_split(ds: Seq<DiagnosticView>)
    ensures
        count_severity(ds, Severity::Error) + count_severity(ds, Severity::Warning) == ds.len(),
    decreases ds.len(),
{
    if ds.len() > 0 {
        lemma_severities_split(ds.drop_last());
    }
}

/// Every diagnostic is an error or a warning: the two counts add up to all diagnostics.
pub proof fn lemma_counts_cover_all(s: Seq<SkillResult>)
    ensures
        severity_total(s, Severity::Error) + severity_total(s, Severity::Warning) == diagnostic_total(s),
    decreases s.len(),
{
    if s.len() > 0 {
        lemma_counts_cover_all(s.drop_last());
        lemma_severities_split(diags_view(s.last().diagnostics@));
        assert(diags_view(s.last().diagnostics@).len() == s.last().diagnostics@.len());
    }
}


/// Some diagnostic of `ds` has the severity `sev`.
pub open spec fn holds_severity(ds: Seq<DiagnosticView>, sev: Severity) -> bool {
    exists|j: int| 0 <= j < ds.len() && (#[trigger] ds[j]).severity == sev
}

/// Some skill of `s` holds a diagnostic of severity `sev`.
pub open spec fn any_severity(s: Seq<SkillResult>, sev: Severity) -> bool {
    exists|k: int| 0 <= k < s.len() && holds_severity(diags_view((#[trigger] s[k]).diagnostics@), sev)
}

/// The count of a severity is positive exactly where a diagnostic has it.
proof fn lemma_count_positive(ds: Seq<DiagnosticView>, sev: Severity)
    ensures
        count_severity(ds, sev) > 0 <==> holds_severity(ds, sev),
    decreases ds.len(),
{
    if ds.len() > 0 {
        let d = ds.drop_last();
        lemma_count_positive(d, sev);
        if holds_severity(d, sev) {
            let j = choose|j: int| 0 <= j < d.len() && (#[trigger] d[j]).severity == sev;
            assert(ds[j] == d[j]);
        }
        if holds_severity(ds, sev) && ds.last().severity != sev {
            let j = choose|j: int| 0 <= j < ds.len() && (#[trigger] ds[j]).severity == sev;
            assert(j < ds.len() - 1);
            assert(d[j] == ds[j]);
        }
    }
}

/// A run counts errors (or warnings) exactly where some skill holds one; a run
/// with an error is one after which the command line exits nonzero.
pub proof fn lemma_total_positive(s: Seq<SkillResult>, sev: Severity)
    ensures
        capped(severity_total(s, sev)) > 0 <==> any_severity(s, sev),
    decreases s.len(),
{
    if s.len() > 0 {
        let t = s.drop_last();
        lemma_total_positive(t, sev);
        lemma_count_positive(diags_view(s.last().diagnostics@), sev);
        if any_severity(t, sev) {
            let k = choose|k: int| 0 <= k < t.len() && holds_severity(diags_view((#[trigger] t[k]).diagnostics@), sev);
            assert(s[k] == t[k]);
        }
        if holds_severity(diags_view(s.last().diagnostics@), sev) {
            assert(s[s.len() - 1] == s.last());
        }
        if any_severity(s, sev) && !holds_severity(diags_view(s.last().diagnostics@), sev) {
            let k = choose|k: int| 0 <= k < s.len() && holds_severity(diags_view((#[trigger] s[k]).diagnostics@), sev);
            assert(k < s.len() - 1);
            assert(t[k] == s[k]);
        }
    }
}

} // verus!
