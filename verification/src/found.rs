//! A whole run: the skill directories that the search found, each linted under
//! the options, collected in path order.
use vstd::prelude::*;
use crate::diagnostic::Severity;
use crate::discover::{is_path_set, paths_ascending};
use crate::path::components;
use crate::rules::{LintOptions, OptionsView, filter_diagnostics, reported};
use crate::run::{LintResult, capped, is_stable_path_sort, keyed_lt, lemma_path_sort_unique, lint_skills, path_key, severity_total};
use crate::skill::{SkillResult, SkillSource, SkillView, SourceView, lint_skill_dir, skill_diags, skill_file_in};
use crate::text::texts;

verus! {

/// A skill directory that the search found, with what was read there: its
/// `SKILL.md`, and the relative references of its body whose file exists.
#[derive(Debug)]
pub struct FoundSkill {
    pub path: String,
    pub source: SkillSource,
    pub existing: Vec<String>,
}

/// A found skill directory as mathematical values.
pub struct FoundView {
    pub path: Seq<char>,
    pub source: SourceView,
    pub existing: Seq<Seq<char>>,
}

impl View for FoundSkill {
    type V = FoundView;

    open spec fn view(&self) -> FoundView {
        FoundView { path: self.path@, source: self.source@, existing: texts(self.existing@) }
    }
}

/// The views of some found skill directories.
pub open spec fn found_views(found: Seq<FoundSkill>) -> Seq<FoundView> {
    found.map_values(|f: FoundSkill| f@)
}

/// The result of linting the found directory `f`, keeping the diagnostics that `o` reports.
pub open spec fn linted(f: FoundView, o: OptionsView) -> SkillView {
    SkillView {
        path: f.path,
        skill_file: match f.source {
            SourceView::Missing => None,
            _ => Some(skill_file_in(f.path)),
        },
        diagnostics: reported(skill_diags(f.path, f.source, f.existing), o),
    }
}

/// `skills` are the found directories `found`, each linted under `o`, stably sorted by path.
pub open spec fn is_run_of(found: Seq<FoundView>, o: OptionsView, skills: Seq<SkillResult>) -> bool {
    exists|each: Seq<SkillResult>, perm: Seq<int>|
        {
            &&& each.len() == found.len()
            &&& forall|k: int| 0 <= k < found.len() ==> (#[trigger] each[k])@ == linted(found[k], o)
            &&& is_stable_path_sort(each, skills, perm)
        }
}

/// The paths of some found skill directories.
pub open spec fn found_paths(found: Seq<FoundView>) -> Seq<Seq<char>> {
    found.map_values(|f: FoundView| f.path)
}

/// Lints each found skill directory once, reporting only the rules that
/// `options` enable, and collects the results under `root` in path order.
pub fn lint_found(root: String, found: Vec<FoundSkill>, options: &LintOptions) -> (r: LintResult)
    ensures
        r.root == root,
        is_run_of(found_views(found@), options@, r.skills@),
        r.error_count == capped(severity_total(r.skills@, Severity::Error)),
        r.warning_count == capped(severity_total(r.skills@, Severity::Warning)),
{
    let ghost fv = found_views(found@);
    let n = found.len();
    let mut rest = found;
    let mut each: Vec<SkillResult> = Vec::new();
    let mut done: usize = 0;
    proof {
        assert(rest@ =~= found@.skip(0));
    }
    while rest.len() > 0
        invariant
            n == found@.len(),
            fv == found_views(found@),
            done <= n,
            rest@ == found@.skip(done as int),
            each@.len() == done,
            forall|k: int| 0 <= k < done ==> (#[trigger] each@[k])@ == linted(fv[k], options@),
        decreases rest@.len(),
    {
        let f = rest.remove(0);
        proof {
            assert(f == found@[done as int]);
            assert(rest@ =~= found@.skip(done + 1));
        }
        let FoundSkill { path, source, existing } = f;
        let s = lint_skill_dir(path, source, &existing);
        let SkillResult { path, skill_file, diagnostics } = s;
        let kept = filter_diagnostics(diagnostics, options);
        let ghost before = each@;
        each.push(SkillResult { path, skill_file, diagnostics: kept });
        proof {
            assert forall|k: int| 0 <= k < done + 1 implies (#[trigger] each@[k])@ == linted(
                fv[k],
                options@,
            ) by {
                if k < done {
                    assert(each@[k] == before[k]);
                }
            }
        }
        done = done + 1;
    }
    let ghost e = each@;
    let r = lint_skills(root, each);
    proof {
        let perm = choose|perm: Seq<int>| is_stable_path_sort(e, r.skills@, perm);
        assert(is_run_of(fv, options@, r.skills@)) by {
            assert(e.len() == fv.len());
        }
    }
    r
}

/// A run over the directories that the search found holds exactly those
/// directories, each linted once under the options, in strictly increasing
/// path order: no directory comes twice.
pub proof fn lemma_run_over_discovered(
    inp: Seq<Seq<char>>,
    found: Seq<FoundView>,
    o: OptionsView,
    skills: Seq<SkillResult>,
)
    requires
        is_path_set(inp, found_paths(found)),
        is_run_of(found, o, skills),
    ensures
        skills.len() == found.len(),
        forall|k: int| 0 <= k < found.len() ==> (#[trigger] skills[k])@ == linted(found[k], o),
        forall|k: int, l: int|
            0 <= k < l < skills.len() ==> crate::path::comps_lt(
                components(#[trigger] skills[k].path@),
                components(#[trigger] skills[l].path@),
            ),
{
    reveal(is_path_set);
    let dirs = found_paths(found);
    assert(paths_ascending(dirs));
    let (each, perm) = choose|each: Seq<SkillResult>, perm: Seq<int>|
        {
            &&& each.len() == found.len()
            &&& forall|k: int| 0 <= k < found.len() ==> (#[trigger] each[k])@ == linted(found[k], o)
            &&& is_stable_path_sort(each, skills, perm)
        };
    let id = Seq::new(each.len(), |i: int| i);
    assert forall|k: int| 0 <= k < each.len() implies path_key(#[trigger] each[k]) == components(
        dirs[k],
    ) by {
        assert(each[k]@ == linted(found[k], o));
    }
    assert forall|k: int, l: int| 0 <= k < l < each.len() implies keyed_lt(
        (path_key(#[trigger] each[k]), id[k]),
        (path_key(#[trigger] each[l]), id[l]),
    ) by {
        assert(path_key(each[k]) == components(dirs[k]));
        assert(path_key(each[l]) == components(dirs[l]));
    }
    assert forall|i: int| 0 <= i < each.len() implies #[trigger] id.contains(i) by {
        assert(id[i] == i);
    }
    assert(is_stable_path_sort(each, each, id));
    lemma_path_sort_unique(each, skills, perm, each, id);
    assert forall|k: int, l: int| 0 <= k < l < skills.len() implies crate::path::comps_lt(
        components(#[trigger] skills[k].path@),
        components(#[trigger] skills[l].path@),
    ) by {
        assert(path_key(each[k]) == components(dirs[k]));
        assert(path_key(each[l]) == components(dirs[l]));
    }
}

} // verus!
