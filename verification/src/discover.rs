//! The rules by which skill directories are found, and the set of them in path order.
use vstd::prelude::*;
use crate::path::{Comp, ParsedPath, Rank, compare_paths, components, comps_lt, file_name, lemma_comps_lt_facts, parse_path, path_file_name};
use crate::text::{chars_of, same_text, texts};

verus! {

/// Directories that the search does not enter.
pub open spec fn skipped_dir(name: Seq<char>) -> bool {
    ||| name == ".git"@
    ||| name == "node_modules"@
    ||| name == "target"@
    ||| name == ".next"@
    ||| name == "dist"@
    ||| name == "build"@
}

/// Whether the search enters (or, for a file, looks at) an entry named `name`.
pub fn should_descend(name: &str) -> (b: bool)
    ensures
        b == !skipped_dir(name@),
{
    !(same_text(name, ".git") || same_text(name, "node_modules") || same_text(name, "target")
        || same_text(name, ".next") || same_text(name, "dist") || same_text(name, "build"))
}

/// A child of a `skills` directory counts as a skill: its file name does not start with a dot.
pub open spec fn included_child(path: Seq<char>) -> bool {
    match file_name(path) {
        Some(n) => !(n.len() > 0 && n[0] == '.'),
        None => false,
    }
}

/// Whether the directory `path`, a child of a `skills` directory, counts as a skill.
pub fn should_include_child(path: &str) -> (b: bool)
    ensures
        b == included_child(path@),
{
    match path_file_name(path) {
        Some(name) => {
            let c = chars_of(name.as_str());
            !(c.len() > 0 && c[0] == '.')
        },
        None => false,
    }
}

/// Whether an entry named `name` is a skill file, whose directory is a skill.
pub fn is_skill_file_name(name: &str) -> (b: bool)
    ensures
        b == (name@ == "SKILL.md"@),
{
    same_text(name, "SKILL.md")
}

/// Whether a directory named `name` holds skills as its children.
pub fn is_skills_dir_name(name: &str) -> (b: bool)
    ensures
        b == (name@ == "skills"@),
{
    same_text(name, "skills")
}

/// `out` lists the paths of `inp` as a `BTreeSet<PathBuf>` filled in that order
/// yields them: in path order, one for each set of paths with the same
/// components, and that one the first of them in `inp`.
#[verifier::opaque]
pub open spec fn is_path_set(inp: Seq<Seq<char>>, out: Seq<Seq<char>>) -> bool {
    &&& paths_ascending(out)
    &&& paths_covered(inp, out)
    &&& paths_first(inp, out)
}

/// The paths of `out` are in strictly increasing path order.
pub open spec fn paths_ascending(out: Seq<Seq<char>>) -> bool {
    forall|k: int, l: int|
        0 <= k < l < out.len() ==> comps_lt(components(#[trigger] out[k]), components(#[trigger] out[l]))
}

/// Some path of `out` has the components `c`.
pub open spec fn lists_comps(out: Seq<Seq<char>>, c: Seq<Comp>) -> bool {
    exists|k: int| 0 <= k < out.len() && components(#[trigger] out[k]) == c
}

/// Each path of `inp` has a path with the same components in `out`.
pub open spec fn paths_covered(inp: Seq<Seq<char>>, out: Seq<Seq<char>>) -> bool {
    forall|i: int| 0 <= i < inp.len() ==> lists_comps(out, components(#[trigger] inp[i]))
}

/// `inp[i]` is the first path of `inp` with its components.
pub open spec fn first_at(inp: Seq<Seq<char>>, i: int) -> bool {
    forall|j: int| 0 <= j < i ==> components(#[trigger] inp[j]) != components(inp[i])
}

/// `p` is a path of `inp` that no earlier path of `inp` equals in components.
pub open spec fn first_of_kind(inp: Seq<Seq<char>>, p: Seq<char>) -> bool {
    exists|i: int| 0 <= i < inp.len() && inp[i] == p && #[trigger] first_at(inp, i)
}

/// Each path of `out` is a path of `inp` that no earlier path of `inp` equals in components.
pub open spec fn paths_first(inp: Seq<Seq<char>>, out: Seq<Seq<char>>) -> bool {
    forall|k: int| 0 <= k < out.len() ==> first_of_kind(inp, #[trigger] out[k])
}


/// A prefix of a sequence keeps the first paths of each kind found in it.
pub proof fn lemma_first_of_kind_push(pre: Seq<Seq<char>>, x: Seq<char>, p: Seq<char>)
    requires
        first_of_kind(pre, p),
    ensures
        first_of_kind(pre.push(x), p),
{
    let pre1 = pre.push(x);
    let i = choose|i: int| 0 <= i < pre.len() && pre[i] == p && #[trigger] first_at(pre, i);
    assert forall|j: int| 0 <= j < i implies components(#[trigger] pre1[j]) != components(pre1[i]) by {
        assert(pre1[j] == pre[j]);
    }
    assert(pre1[i] == p && first_at(pre1, i));
}

/// Adding a path whose components are listed already keeps the listing.
pub proof fn lemma_path_set_skip(pre: Seq<Seq<char>>, o: Seq<Seq<char>>, x: Seq<char>, j: int)
    requires
        is_path_set(pre, o),
        0 <= j < o.len(),
        components(o[j]) == components(x),
    ensures
        is_path_set(pre.push(x), o),
{
    reveal(is_path_set);
    let pre1 = pre.push(x);
    assert forall|a: int| 0 <= a < pre1.len() implies lists_comps(o, components(#[trigger] pre1[a])) by {
        if a == pre.len() {
            assert(components(o[j]) == components(pre1[a]));
        } else {
            assert(pre1[a] == pre[a]);
        }
    }
    assert forall|k: int| 0 <= k < o.len() implies first_of_kind(pre1, #[trigger] o[k]) by {
        lemma_first_of_kind_push(pre, x, o[k]);
    }
}

/// A path with new components, inserted where it belongs, keeps the order.
pub proof fn lemma_insert_ascending(o: Seq<Seq<char>>, x: Seq<char>, j: int)
    requires
        paths_ascending(o),
        0 <= j <= o.len(),
        forall|k: int| 0 <= k < j ==> comps_lt(components(#[trigger] o[k]), components(x)),
        j < o.len() ==> comps_lt(components(x), components(o[j])),
    ensures
        paths_ascending(o.insert(j, x)),
{
    let no = o.insert(j, x);
    assert forall|k: int, l: int| 0 <= k < l < no.len() implies comps_lt(components(#[trigger] no[k]), components(#[trigger] no[l])) by {
        if l < j {
            assert(no[k] == o[k] && no[l] == o[l]);
        } else if l == j {
            assert(no[k] == o[k] && no[l] == x);
        } else if k == j {
            assert(no[k] == x && no[l] == o[l - 1]);
            if l - 1 > j {
                assert(comps_lt(components(o[j]), components(o[l - 1])));
                lemma_comps_lt_facts(components(x), components(o[j]), components(o[l - 1]));
            }
        } else if k < j {
            assert(no[k] == o[k] && no[l] == o[l - 1]);
            if l - 1 > j {
                assert(comps_lt(components(o[j]), components(o[l - 1])));
                lemma_comps_lt_facts(components(x), components(o[j]), components(o[l - 1]));
            }
            lemma_comps_lt_facts(components(o[k]), components(x), components(o[l - 1]));
        } else {
            assert(no[k] == o[k - 1] && no[l] == o[l - 1]);
        }
    }
}

/// In an ascending listing, nothing has the components of a path that falls between `j - 1` and `j`.
pub proof fn lemma_not_listed(o: Seq<Seq<char>>, x: Seq<char>, j: int)
    requires
        paths_ascending(o),
        0 <= j <= o.len(),
        forall|k: int| 0 <= k < j ==> comps_lt(components(#[trigger] o[k]), components(x)),
        j < o.len() ==> comps_lt(components(x), components(o[j])),
    ensures
        forall|k: int| 0 <= k < o.len() ==> components(#[trigger] o[k]) != components(x),
{
    assert forall|k: int| 0 <= k < o.len() implies components(#[trigger] o[k]) != components(x) by {
        if k < j {
            lemma_comps_lt_facts(components(o[k]), components(x), components(x));
        } else if k == j {
            lemma_comps_lt_facts(components(x), components(o[j]), components(x));
        } else {
            assert(comps_lt(components(o[j]), components(o[k])));
            lemma_comps_lt_facts(components(x), components(o[j]), components(o[k]));
            lemma_comps_lt_facts(components(x), components(o[k]), components(x));
        }
    }
}

/// Adding a path to both lists keeps every input path covered.
pub proof fn lemma_insert_covered(pre: Seq<Seq<char>>, o: Seq<Seq<char>>, x: Seq<char>, j: int)
    requires
        paths_covered(pre, o),
        0 <= j <= o.len(),
    ensures
        paths_covered(pre.push(x), o.insert(j, x)),
{
    let pre1 = pre.push(x);
    let no = o.insert(j, x);
    assert forall|a: int| 0 <= a < pre1.len() implies lists_comps(no, components(#[trigger] pre1[a])) by {
        if a == pre.len() {
            assert(no[j] == pre1[a]);
        } else {
            assert(pre1[a] == pre[a]);
            assert(lists_comps(o, components(pre[a])));
            let k = choose|k: int| 0 <= k < o.len() && components(#[trigger] o[k]) == components(pre[a]);
            if k < j {
                assert(no[k] == o[k]);
            } else {
                assert(no[k + 1] == o[k]);
            }
        }
    }
}

/// Adding a path with components not listed yet keeps each listed path the first of its kind.
pub proof fn lemma_insert_first(pre: Seq<Seq<char>>, o: Seq<Seq<char>>, x: Seq<char>, j: int)
    requires
        paths_first(pre, o),
        paths_covered(pre, o),
        0 <= j <= o.len(),
        forall|k: int| 0 <= k < o.len() ==> components(#[trigger] o[k]) != components(x),
    ensures
        paths_first(pre.push(x), o.insert(j, x)),
{
    let pre1 = pre.push(x);
    let no = o.insert(j, x);
    let i = pre.len() as int;
    assert forall|b: int| 0 <= b < i implies components(#[trigger] pre1[b]) != components(pre1[i]) by {
        assert(pre1[b] == pre[b]);
        assert(lists_comps(o, components(pre[b])));
        let m = choose|m: int| 0 <= m < o.len() && components(#[trigger] o[m]) == components(pre[b]);
        assert(components(o[m]) != components(x));
    }
    assert(pre1[i] == x && first_at(pre1, i));
    assert forall|k: int| 0 <= k < no.len() implies first_of_kind(pre1, #[trigger] no[k]) by {
        if k == j {
            assert(no[k] == x);
        } else if k < j {
            assert(no[k] == o[k]);
            lemma_first_of_kind_push(pre, x, o[k]);
        } else {
            assert(no[k] == o[k - 1]);
            lemma_first_of_kind_push(pre, x, o[k - 1]);
        }
    }
}

/// Inserting a path with new components where it belongs in path order extends the listing.
pub proof fn lemma_path_set_insert(pre: Seq<Seq<char>>, o: Seq<Seq<char>>, x: Seq<char>, j: int)
    requires
        is_path_set(pre, o),
        0 <= j <= o.len(),
        forall|k: int| 0 <= k < j ==> comps_lt(components(#[trigger] o[k]), components(x)),
        j < o.len() ==> comps_lt(components(x), components(o[j])),
    ensures
        is_path_set(pre.push(x), o.insert(j, x)),
{
    reveal(is_path_set);
    lemma_insert_ascending(o, x, j);
    lemma_not_listed(o, x, j);
    lemma_insert_covered(pre, o, x, j);
    lemma_insert_first(pre, o, x, j);
}

/// The distinct paths of `paths` in path order, as a `BTreeSet<PathBuf>` filled
/// with them in order yields them.
pub fn unique_sorted_paths(paths: &Vec<String>) -> (out: Vec<String>)
    ensures
        is_path_set(texts(paths@), texts(out@)),
{
    let ghost inp = texts(paths@);
    let mut out: Vec<String> = Vec::new();
    let mut keys: Vec<ParsedPath> = Vec::new();
    let mut i: usize = 0;
    proof {
        reveal(is_path_set);
        assert(is_path_set(inp.take(0), texts(out@)));
    }
    while i < paths.len()
        invariant
            i <= paths@.len(),
            inp == texts(paths@),
            out@.len() == keys@.len(),
            forall|k: int|
                0 <= k < keys@.len() ==> (#[trigger] keys@[k]).wf() && keys@[k].comps() == components(
                    out@[k]@,
                ),
            is_path_set(inp.take(i as int), texts(out@)),
        decreases paths@.len() - i,
    {
        let ghost o = texts(out@);
        let ghost old_keys = keys@;
        let ghost x = inp[i as int];
        proof {
            assert(inp.take(i + 1) =~= inp.take(i as int).push(x));
        }
        let kx = parse_path(paths[i].as_str());
        let mut j: usize = 0;
        while j < keys.len() && compare_paths(&keys[j], &kx) == Rank::Before
            invariant
                j <= keys@.len(),
                kx.wf(),
                forall|k: int| 0 <= k < keys@.len() ==> (#[trigger] keys@[k]).wf(),
                forall|k: int| 0 <= k < j ==> comps_lt((#[trigger] keys@[k]).comps(), kx.comps()),
            decreases keys@.len() - j,
        {
            j = j + 1;
        }
        if j < keys.len() && compare_paths(&keys[j], &kx) == Rank::Same {
            proof {
                assert(keys@[j as int].comps() == components(o[j as int]));
                lemma_path_set_skip(inp.take(i as int), o, x, j as int);
            }
        } else {
            proof {
                assert forall|k: int| 0 <= k < j implies comps_lt(components(#[trigger] o[k]), components(x)) by {
                    assert(keys@[k].comps() == components(o[k]));
                }
                if j < o.len() {
                    assert(keys@[j as int].comps() == components(o[j as int]));
                    lemma_comps_lt_facts(components(o[j as int]), components(x), components(x));
                }
                lemma_path_set_insert(inp.take(i as int), o, x, j as int);
            }
            keys.insert(j, kx);
            out.insert(j, paths[i].clone());
            proof {
                assert(texts(out@) =~= o.insert(j as int, x));
                assert forall|k: int| 0 <= k < keys@.len() implies (#[trigger] keys@[k]).wf() && keys@[k].comps() == components(out@[k]@) by {
                    if k < j {
                        assert(keys@[k] == old_keys[k] && out@[k]@ == o[k]);
                    } else if k > j {
                        assert(keys@[k] == old_keys[k - 1] && out@[k]@ == o[k - 1]);
                    }
                }
            }
        }
        i = i + 1;
    }
    proof {
        assert(inp.take(i as int) =~= inp);
    }
    out
}


/// An entry that the search met, in the order of the walk: its file name,
/// whether it is a file or a directory, the directory that holds it, and, for a
/// `skills` directory, the paths of the directories in it.
#[derive(Debug)]
pub struct WalkEntry {
    pub name: String,
    pub is_file: bool,
    pub is_dir: bool,
    pub parent: Option<String>,
    pub child_dirs: Vec<String>,
}

/// An entry of the walk as mathematical values.
pub struct EntryView {
    pub name: Seq<char>,
    pub is_file: bool,
    pub is_dir: bool,
    pub parent: Option<Seq<char>>,
    pub child_dirs: Seq<Seq<char>>,
}

impl View for WalkEntry {
    type V = EntryView;

    open spec fn view(&self) -> EntryView {
        EntryView {
            name: self.name@,
            is_file: self.is_file,
            is_dir: self.is_dir,
            parent: match self.parent {
                Some(p) => Some(p@),
                None => None,
            },
            child_dirs: texts(self.child_dirs@),
        }
    }
}

/// The paths of `ps` that count as skills, in order.
pub open spec fn included(ps: Seq<Seq<char>>) -> Seq<Seq<char>>
    decreases ps.len(),
{
    if ps.len() == 0 {
        Seq::empty()
    } else {
        included(ps.drop_last()) + if included_child(ps.last()) {
            seq![ps.last()]
        } else {
            Seq::<Seq<char>>::empty()
        }
    }
}

/// The skill directories that one entry of the walk names: the directory of a
/// `SKILL.md` file, and the children of a `skills` directory that count.
pub open spec fn entry_candidates(e: EntryView) -> Seq<Seq<char>> {
    (if e.is_file && e.name == "SKILL.md"@ {
        match e.parent {
            Some(p) => seq![p],
            None => Seq::empty(),
        }
    } else {
        Seq::empty()
    }) + if e.is_dir && e.name == "skills"@ {
        included(e.child_dirs)
    } else {
        Seq::empty()
    }
}

/// The skill directories that the entries of a walk name, in the order met.
pub open spec fn walk_candidates(es: Seq<EntryView>) -> Seq<Seq<char>>
    decreases es.len(),
{
    if es.len() == 0 {
        Seq::empty()
    } else {
        walk_candidates(es.drop_last()) + entry_candidates(es.last())
    }
}

/// The skill directories that the root of the search names itself: where it is
/// a `skills` directory, its children that count.
pub open spec fn root_candidates(root_name: Option<Seq<char>>, children: Seq<Seq<char>>) -> Seq<
    Seq<char>,
> {
    if root_name == Some("skills"@) {
        included(children)
    } else {
        Seq::empty()
    }
}

/// Appends the paths of `children` that count as skills to `out`.
fn push_included(children: &Vec<String>, out: &mut Vec<String>)
    ensures
        texts(final(out)@) == texts(old(out)@) + included(texts(children@)),
{
    let ghost start = texts(out@);
    let ghost cs = texts(children@);
    let mut i: usize = 0;
    proof {
        assert(cs.take(0) =~= Seq::<Seq<char>>::empty());
        assert(texts(out@) =~= start + included(cs.take(0)));
    }
    while i < children.len()
        invariant
            i <= children@.len(),
            cs == texts(children@),
            texts(out@) == start + included(cs.take(i as int)),
        decreases children@.len() - i,
    {
        proof {
            assert(cs.take(i + 1).drop_last() =~= cs.take(i as int));
            assert(cs.take(i + 1).last() == children@[i as int]@);
        }
        if should_include_child(children[i].as_str()) {
            let ghost before = out@;
            out.push(children[i].clone());
            proof {
                assert(texts(out@) =~= texts(before).push(children@[i as int]@));
            }
        }
        proof {
            assert(texts(out@) =~= start + included(cs.take(i + 1)));
        }
        i = i + 1;
    }
    proof {
        assert(cs.take(i as int) =~= cs);
    }
}

/// Appends the skill directories that the entry `e` names to `out`.
pub fn push_entry_candidates(e: &WalkEntry, out: &mut Vec<String>)
    ensures
        texts(final(out)@) == texts(old(out)@) + entry_candidates(e@),
{
    let ghost start = texts(out@);
    if e.is_file && is_skill_file_name(e.name.as_str()) {
        if let Some(p) = &e.parent {
            out.push(p.clone());
        }
    }
    proof {
        let first: Seq<Seq<char>> = if e.is_file && e.name@ == "SKILL.md"@ {
            match e@.parent {
                Some(p) => seq![p],
                None => Seq::empty(),
            }
        } else {
            Seq::empty()
        };
        assert(texts(out@) =~= start + first);
    }
    if e.is_dir && is_skills_dir_name(e.name.as_str()) {
        push_included(&e.child_dirs, out);
    }
    proof {
        assert(texts(out@) =~= start + entry_candidates(e@));
    }
}

/// The skill directories that a search finds: those that the entries of the walk
/// under the root name, and those that the root names itself, each once, in path
/// order. `root_name` is the root's file name, and `root_children` the paths of
/// the directories in it where it is a `skills` directory.
pub fn discover_skill_dirs(
    entries: &Vec<WalkEntry>,
    root_name: Option<String>,
    root_children: &Vec<String>,
) -> (dirs: Vec<String>)
    ensures
        is_path_set(
            walk_candidates(entries@.map_values(|e: WalkEntry| e@)) + root_candidates(
                match root_name {
                    Some(n) => Some(n@),
                    None => None,
                },
                texts(root_children@),
            ),
            texts(dirs@),
        ),
{
    let ghost es = entries@.map_values(|e: WalkEntry| e@);
    let mut candidates: Vec<String> = Vec::new();
    let mut i: usize = 0;
    proof {
        assert(es.take(0) =~= Seq::<EntryView>::empty());
        assert(texts(candidates@) =~= walk_candidates(es.take(0)));
    }
    while i < entries.len()
        invariant
            i <= entries@.len(),
            es == entries@.map_values(|e: WalkEntry| e@),
            texts(candidates@) == walk_candidates(es.take(i as int)),
        decreases entries@.len() - i,
    {
        proof {
            assert(es.take(i + 1).drop_last() =~= es.take(i as int));
            assert(es.take(i + 1).last() == entries@[i as int]@);
        }
        push_entry_candidates(&entries[i], &mut candidates);
        i = i + 1;
    }
    proof {
        assert(es.take(i as int) =~= es);
    }
    let ghost walked = texts(candidates@);
    let is_skills = match &root_name {
        Some(n) => is_skills_dir_name(n.as_str()),
        None => false,
    };
    if is_skills {
        push_included(root_children, &mut candidates);
    } else {
        proof {
            assert(texts(candidates@) =~= walked + Seq::<Seq<char>>::empty());
        }
    }
    unique_sorted_paths(&candidates)
}

/// The skill directory that a search rooted at a file finds: the file's
/// directory where the file is `SKILL.md`, and none otherwise.
pub fn skill_dir_of_file(name: &str, parent: Option<String>) -> (dirs: Vec<String>)
    ensures
        texts(dirs@) == if name@ == "SKILL.md"@ {
            match parent {
                Some(p) => seq![p@],
                None => Seq::<Seq<char>>::empty(),
            }
        } else {
            Seq::<Seq<char>>::empty()
        },
{
    let mut dirs: Vec<String> = Vec::new();
    if is_skill_file_name(name) {
        if let Some(p) = parent {
            dirs.push(p);
            proof {
                assert(texts(dirs@) =~= seq![p@]);
            }
            return dirs;
        }
    }
    proof {
        assert(texts(dirs@) =~= Seq::<Seq<char>>::empty());
    }
    dirs
}


/// The entry `e` names `x` as a skill directory: `x` holds the `SKILL.md` file
/// `e`, or `x` is a child of the `skills` directory `e` that counts.
pub open spec fn names_skill(e: EntryView, x: Seq<char>) -> bool {
    ||| e.is_file && e.name == "SKILL.md"@ && e.parent == Some(x)
    ||| e.is_dir && e.name == "skills"@ && e.child_dirs.contains(x) && included_child(x)
}

/// The search with these entries and this root names `x` as a skill directory.
pub open spec fn found_by(
    es: Seq<EntryView>,
    root_name: Option<Seq<char>>,
    root_children: Seq<Seq<char>>,
    x: Seq<char>,
) -> bool {
    ||| exists|i: int| 0 <= i < es.len() && names_skill(#[trigger] es[i], x)
    ||| root_name == Some("skills"@) && root_children.contains(x) && included_child(x)
}

/// The children that count are those of `ps` that `included_child` accepts.
pub proof fn lemma_included(ps: Seq<Seq<char>>, x: Seq<char>)
    ensures
        included(ps).contains(x) <==> ps.contains(x) && included_child(x),
    decreases ps.len(),
{
    broadcast use vstd::seq_lib::lemma_seq_concat_contains_all_elements;
    if ps.len() > 0 {
        let d = ps.drop_last();
        lemma_included(d, x);
        assert(ps =~= d.push(ps.last()));
        assert(ps.contains(x) <==> d.contains(x) || ps.last() == x) by {
            if ps.contains(x) && ps.last() != x {
                let j = choose|j: int| 0 <= j < ps.len() && ps[j] == x;
                assert(d[j] == x);
            }
            if d.contains(x) {
                let j = choose|j: int| 0 <= j < d.len() && d[j] == x;
                assert(ps[j] == x);
            }
            if ps.last() == x {
                assert(ps[ps.len() - 1] == x);
            }
        }
        if included_child(ps.last()) {
            assert(seq![ps.last()].contains(x) <==> ps.last() == x) by {
                if seq![ps.last()].contains(x) {
                    let j = choose|j: int| 0 <= j < 1 && seq![ps.last()][j] == x;
                }
                if ps.last() == x {
                    assert(seq![ps.last()][0] == x);
                }
            }
        }
    }
}

/// What one entry names is what `names_skill` says.
proof fn lemma_entry_candidates(e: EntryView, x: Seq<char>)
    ensures
        entry_candidates(e).contains(x) <==> names_skill(e, x),
{
    broadcast use vstd::seq_lib::lemma_seq_concat_contains_all_elements;
    lemma_included(e.child_dirs, x);
    if e.is_file && e.name == "SKILL.md"@ {
        if let Some(p) = e.parent {
            assert(seq![p].contains(x) <==> p == x) by {
                if seq![p].contains(x) {
                    let j = choose|j: int| 0 <= j < 1 && seq![p][j] == x;
                }
                if p == x {
                    assert(seq![p][0] == x);
                }
            }
        }
    }
}

/// What the walk names is what some entry names.
proof fn lemma_walk_candidates(es: Seq<EntryView>, x: Seq<char>)
    ensures
        walk_candidates(es).contains(x) <==> exists|i: int| 0 <= i < es.len() && names_skill(#[trigger] es[i], x),
    decreases es.len(),
{
    broadcast use vstd::seq_lib::lemma_seq_concat_contains_all_elements;
    if es.len() > 0 {
        let d = es.drop_last();
        lemma_walk_candidates(d, x);
        lemma_entry_candidates(es.last(), x);
        if exists|i: int| 0 <= i < d.len() && names_skill(#[trigger] d[i], x) {
            let i = choose|i: int| 0 <= i < d.len() && names_skill(#[trigger] d[i], x);
            assert(es[i] == d[i]);
        }
        if names_skill(es.last(), x) {
            assert(es[es.len() - 1] == es.last());
        }
        if exists|i: int| 0 <= i < es.len() && names_skill(#[trigger] es[i], x) {
            let i = choose|i: int| 0 <= i < es.len() && names_skill(#[trigger] es[i], x);
            if i < es.len() - 1 {
                assert(d[i] == es[i]);
            }
        }
    }
}

/// A search finds each skill directory that it names, by its components: the
/// directory of every `SKILL.md` the walk meets, every child of a `skills`
/// directory whose name does not start with a dot, and the like children of a
/// root named `skills`; and every directory it finds is one of those.
pub proof fn lemma_discovery(
    es: Seq<EntryView>,
    root_name: Option<Seq<char>>,
    root_children: Seq<Seq<char>>,
    out: Seq<Seq<char>>,
)
    requires
        is_path_set(walk_candidates(es) + root_candidates(root_name, root_children), out),
    ensures
        forall|x: Seq<char>|
            #![trigger found_by(es, root_name, root_children, x)]
            found_by(es, root_name, root_children, x) ==> lists_comps(out, components(x)),
        forall|k: int| 0 <= k < out.len() ==> found_by(es, root_name, root_children, #[trigger] out[k]),
{
    broadcast use vstd::seq_lib::lemma_seq_concat_contains_all_elements;
    reveal(is_path_set);
    let inp = walk_candidates(es) + root_candidates(root_name, root_children);
    assert forall|x: Seq<char>| inp.contains(x) <==> found_by(es, root_name, root_children, x) by {
        lemma_walk_candidates(es, x);
        lemma_included(root_children, x);
    }
    assert forall|x: Seq<char>|
        #![trigger found_by(es, root_name, root_children, x)]
        found_by(es, root_name, root_children, x) implies lists_comps(out, components(x)) by {
        assert(inp.contains(x));
        let i = choose|i: int| 0 <= i < inp.len() && inp[i] == x;
        assert(lists_comps(out, components(inp[i])));
    }
    assert forall|k: int| 0 <= k < out.len() implies found_by(
        es,
        root_name,
        root_children,
        #[trigger] out[k],
    ) by {
        assert(first_of_kind(inp, out[k]));
        let i = choose|i: int| 0 <= i < inp.len() && inp[i] == out[k] && #[trigger] first_at(inp, i);
        assert(inp.contains(out[k]));
    }
}


/// The search skips exactly the directories named `.git`, `node_modules`,
/// `target`, `.next`, `dist` and `build`; it enters every other entry, other
/// dot-directories such as `.github` included.
pub proof fn lemma_skipped_names(name: Seq<char>)
    ensures
        skipped_dir(name) <==> (name == ".git"@ || name == "node_modules"@ || name == "target"@
            || name == ".next"@ || name == "dist"@ || name == "build"@),
{
}

/// A child of a `skills` directory counts as a skill exactly where its path has
/// a file name that does not start with a dot.
pub proof fn lemma_included_child(path: Seq<char>)
    ensures
        included_child(path) <==> (file_name(path) matches Some(n) && !(n.len() > 0 && n[0] == '.')),
{
}
} // verus!
