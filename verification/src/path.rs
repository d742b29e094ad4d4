//! Paths as `std::path::Path` reads them on Unix: their components, their
//! order, their file name, and how deep a relative reference reaches.
use vstd::prelude::*;
use crate::order::{
    char_lt, lemma_char_lt_strict_total, lemma_lex_asymmetric, lemma_lex_irreflexive,
    lemma_lex_skip, lemma_lex_total, lemma_lex_transitive, lex_lt, strict_total, text_lt,
};
use crate::text::chars_of;
use vstd::string::StrSliceExecFns;

verus! {

/// A component of a path.
pub enum Comp {
    Root,
    Cur,
    Parent,
    Normal(Seq<char>),
}

/// The index of the first `/` at or after `i`, or the length of `s`.
pub open spec fn seg_end(s: Seq<char>, i: int) -> int
    decreases s.len() - i,
{
    if i >= s.len() {
        s.len() as int
    } else if s[i] == '/' {
        i
    } else {
        seg_end(s, i + 1)
    }
}

/// Where a path segment that starts at `i` ends.
pub proof fn lemma_seg_end(s: Seq<char>, i: int)
    requires
        0 <= i <= s.len(),
    ensures
        i <= seg_end(s, i) <= s.len(),
        seg_end(s, i) < s.len() ==> s[seg_end(s, i)] == '/',
        forall|j: int| i <= j < seg_end(s, i) ==> s[j] != '/',
    decreases s.len() - i,
{
    if i < s.len() && s[i] != '/' {
        lemma_seg_end(s, i + 1);
    }
}

/// The components of the segments of `s` from index `i` on, where segments are
/// separated by `/`: empty and `.` segments give none, `..` gives `Parent`.
pub open spec fn comps_from(s: Seq<char>, i: int) -> Seq<Comp>
    decreases s.len() - i,
{
    if i < 0 || i > s.len() {
        Seq::empty()
    } else {
        let e = seg_end(s, i);
        let seg = s.subrange(i, e);
        let rest = if e < s.len() {
            proof {
                lemma_seg_end(s, i);
            }
            comps_from(s, e + 1)
        } else {
            Seq::empty()
        };
        if seg.len() == 0 || seg == seq!['.'] {
            rest
        } else if seg == seq!['.', '.'] {
            seq![Comp::Parent] + rest
        } else {
            seq![Comp::Normal(seg)] + rest
        }
    }
}

/// `s` is `.` or begins with `./`.
pub open spec fn starts_cur(s: Seq<char>) -> bool {
    s.len() > 0 && s[0] == '.' && (s.len() == 1 || s[1] == '/')
}

/// The components of the path `s`, as `Path::components` yields them on Unix.
#[verifier::opaque]
pub open spec fn components(s: Seq<char>) -> Seq<Comp> {
    if s.len() > 0 && s[0] == '/' {
        seq![Comp::Root] + comps_from(s, 1)
    } else if starts_cur(s) {
        seq![Comp::Cur] + comps_from(s, 1)
    } else {
        comps_from(s, 0)
    }
}

/// A component of a path, with a `Normal` one given by its range of characters in the path.
#[derive(Clone, Copy)]
pub enum PathPart {
    RootDir,
    CurDir,
    ParentDir,
    Normal(usize, usize),
}

/// The component that `p` stands for in the path `s`.
pub open spec fn part_view(p: PathPart, s: Seq<char>) -> Comp {
    match p {
        PathPart::RootDir => Comp::Root,
        PathPart::CurDir => Comp::Cur,
        PathPart::ParentDir => Comp::Parent,
        PathPart::Normal(a, b) => Comp::Normal(s.subrange(a as int, b as int)),
    }
}

/// The components that `ps` stand for in the path `s`.
pub open spec fn parts_view(ps: Seq<PathPart>, s: Seq<char>) -> Seq<Comp> {
    ps.map_values(|p: PathPart| part_view(p, s))
}

/// Every `Normal` part lies within `s`.
pub open spec fn parts_in(ps: Seq<PathPart>, s: Seq<char>) -> bool {
    forall|k: int|
        0 <= k < ps.len() ==> match #[trigger] ps[k] {
            PathPart::Normal(a, b) => a <= b <= s.len(),
            _ => true,
        }
}

/// A path with its characters and its components.
pub struct ParsedPath {
    pub chars: Vec<char>,
    pub parts: Vec<PathPart>,
}

impl ParsedPath {
    /// The parts lie within the characters.
    pub open spec fn wf(&self) -> bool {
        parts_in(self.parts@, self.chars@)
    }

    /// The components of the path.
    pub open spec fn comps(&self) -> Seq<Comp> {
        parts_view(self.parts@, self.chars@)
    }
}

/// Splits the path `p` into its components.
pub fn parse_path(p: &str) -> (r: ParsedPath)
    ensures
        r.chars@ == p@,
        r.wf(),
        r.comps() == components(p@),
{
    let s = chars_of(p);
    proof {
        reveal(components);
    }
    let mut parts: Vec<PathPart> = Vec::new();
    let mut i: usize;
    if s.len() > 0 && s[0] == '/' {
        parts.push(PathPart::RootDir);
        i = 1;
    } else if s.len() > 0 && s[0] == '.' && (s.len() == 1 || s[1] == '/') {
        parts.push(PathPart::CurDir);
        i = 1;
    } else {
        i = 0;
    }
    proof {
        assert(parts_view(parts@, s@) + comps_from(s@, i as int) =~= components(s@));
    }
    loop
        invariant
            i <= s@.len(),
            s@ == p@,
            parts_in(parts@, s@),
            parts_view(parts@, s@) + comps_from(s@, i as int) == components(s@),
        decreases s@.len() - i,
    {
        let ghost old_parts = parts@;
        let mut e = i;
        while e < s.len() && s[e] != '/'
            invariant
                i <= e <= s@.len(),
                seg_end(s@, i as int) == seg_end(s@, e as int),
            decreases s@.len() - e,
        {
            e = e + 1;
        }
        proof {
            lemma_seg_end(s@, i as int);
        }
        let ghost seg = s@.subrange(i as int, e as int);
        let ghost rest = if e < s@.len() {
            comps_from(s@, e + 1)
        } else {
            Seq::<Comp>::empty()
        };
        if e == i {
        } else if e - i == 1 && s[i] == '.' {
            proof {
                assert(seg =~= seq!['.']);
            }
        } else if e - i == 2 && s[i] == '.' && s[i + 1] == '.' {
            proof {
                assert(seg =~= seq!['.', '.']);
            }
            parts.push(PathPart::ParentDir);
            proof {
                assert(parts_view(parts@, s@) =~= parts_view(old_parts, s@) + seq![Comp::Parent]);
            }
        } else {
            proof {
                assert(seg.len() != 0);
                if seg == seq!['.'] {
                    assert(seg[0] == '.');
                }
                if seg == seq!['.', '.'] {
                    assert(seg[0] == '.' && seg[1] == '.');
                }
            }
            parts.push(PathPart::Normal(i, e));
            proof {
                assert(parts_view(parts@, s@) =~= parts_view(old_parts, s@) + seq![
                    Comp::Normal(seg),
                ]);
            }
        }
        proof {
            assert(parts_view(parts@, s@) + rest =~= parts_view(old_parts, s@) + comps_from(
                s@,
                i as int,
            ));
        }
        if e < s.len() {
            i = e + 1;
        } else {
            proof {
                assert(parts_view(parts@, s@) =~= components(s@));
            }
            return ParsedPath { chars: s, parts };
        }
    }
}


/// Where one value stands relative to another in an order.
#[derive(Clone, Copy, PartialEq, Eq, Structural, Debug)]
pub enum Rank {
    Before,
    Same,
    After,
}

/// The place of a component's kind in the order of components.
pub open spec fn comp_rank(c: Comp) -> int {
    match c {
        Comp::Root => 0,
        Comp::Cur => 1,
        Comp::Parent => 2,
        Comp::Normal(_) => 3,
    }
}

/// The order of `std::path::Component`: root, `.`, `..`, then names in the order of their text.
pub open spec fn comp_lt(x: Comp, y: Comp) -> bool {
    match (x, y) {
        (Comp::Normal(a), Comp::Normal(b)) => text_lt(a, b),
        _ => comp_rank(x) < comp_rank(y),
    }
}

/// Component sequences in lexicographic order.
pub open spec fn comps_lt(a: Seq<Comp>, b: Seq<Comp>) -> bool {
    lex_lt(a, b, |x: Comp, y: Comp| comp_lt(x, y))
}

/// The order of `std::path::Path`: its components in lexicographic order.
pub open spec fn path_lt(a: Seq<char>, b: Seq<char>) -> bool {
    comps_lt(components(a), components(b))
}

/// Two paths are equal as `std::path::Path` compares them: they have the same components.
pub open spec fn path_eq(a: Seq<char>, b: Seq<char>) -> bool {
    components(a) == components(b)
}

/// The order of path components is a strict total order.
pub proof fn lemma_comp_lt_strict_total()
    ensures
        strict_total(|x: Comp, y: Comp| comp_lt(x, y)),
{
    let cl = |x: char, y: char| char_lt(x, y);
    lemma_char_lt_strict_total();
    assert forall|x: Comp| !comp_lt(x, x) by {
        if let Comp::Normal(a) = x {
            lemma_lex_irreflexive(a, cl);
        }
    }
    assert forall|x: Comp, y: Comp, z: Comp| comp_lt(x, y) && comp_lt(y, z) implies comp_lt(
        x,
        z,
    ) by {
        if let (Comp::Normal(a), Comp::Normal(b), Comp::Normal(c)) = (x, y, z) {
            lemma_lex_transitive(a, b, c, cl);
        }
    }
    assert forall|x: Comp, y: Comp| x != y implies comp_lt(x, y) || comp_lt(y, x) by {
        if let (Comp::Normal(a), Comp::Normal(b)) = (x, y) {
            lemma_lex_total(a, b, cl);
        } else {
            assert(comp_rank(x) != comp_rank(y));
        }
    }
}

/// The order of component sequences is a strict total order.
pub proof fn lemma_comps_lt_facts(a: Seq<Comp>, b: Seq<Comp>, c: Seq<Comp>)
    ensures
        !comps_lt(a, a),
        comps_lt(a, b) && comps_lt(b, c) ==> comps_lt(a, c),
        a != b ==> comps_lt(a, b) || comps_lt(b, a),
        comps_lt(a, b) ==> !comps_lt(b, a),
{
    let cl = |x: Comp, y: Comp| comp_lt(x, y);
    lemma_comp_lt_strict_total();
    lemma_lex_irreflexive(a, cl);
    if comps_lt(a, b) && comps_lt(b, c) {
        lemma_lex_transitive(a, b, c, cl);
    }
    if a != b {
        lemma_lex_total(a, b, cl);
    }
    if comps_lt(a, b) {
        lemma_lex_asymmetric(a, b, cl);
    }
}

/// Compares `a[a0..a1]` with `b[b0..b1]` in code point order.
pub fn compare_ranges(a: &Vec<char>, a0: usize, a1: usize, b: &Vec<char>, b0: usize, b1: usize) -> (r:
    Rank)
    requires
        a0 <= a1 <= a@.len(),
        b0 <= b1 <= b@.len(),
    ensures
        (r == Rank::Before) == text_lt(a@.subrange(a0 as int, a1 as int), b@.subrange(b0 as int, b1 as int)),
        (r == Rank::Same) == (a@.subrange(a0 as int, a1 as int) == b@.subrange(b0 as int, b1 as int)),
        (r == Rank::After) == text_lt(b@.subrange(b0 as int, b1 as int), a@.subrange(a0 as int, a1 as int)),
{
    let ghost sa = a@.subrange(a0 as int, a1 as int);
    let ghost sb = b@.subrange(b0 as int, b1 as int);
    let ghost cl = |x: char, y: char| char_lt(x, y);
    proof {
        lemma_char_lt_strict_total();
        assert(sa.skip(0) =~= sa);
        assert(sb.skip(0) =~= sb);
    }
    let la = a1 - a0;
    let lb = b1 - b0;
    let mut i: usize = 0;
    while i < la && i < lb && a[a0 + i] == b[b0 + i]
        invariant
            la == sa.len(),
            lb == sb.len(),
            sa == a@.subrange(a0 as int, a1 as int),
            sb == b@.subrange(b0 as int, b1 as int),
            a0 <= a1 <= a@.len(),
            b0 <= b1 <= b@.len(),
            i <= la,
            i <= lb,
            cl == (|x: char, y: char| char_lt(x, y)),
            text_lt(sa, sb) == lex_lt(sa.skip(i as int), sb.skip(i as int), cl),
            text_lt(sb, sa) == lex_lt(sb.skip(i as int), sa.skip(i as int), cl),
            sa.take(i as int) == sb.take(i as int),
        decreases la - i,
    {
        proof {
            lemma_lex_skip(sa, sb, i as int, cl);
            lemma_lex_skip(sb, sa, i as int, cl);
            assert(sa.take(i + 1) =~= sa.take(i as int).push(sa[i as int]));
            assert(sb.take(i + 1) =~= sb.take(i as int).push(sb[i as int]));
        }
        i = i + 1;
    }
    proof {
        lemma_lex_irreflexive(sa, cl);
        if sa != sb {
            lemma_lex_total(sa, sb, cl);
        }
        if text_lt(sa, sb) {
            lemma_lex_asymmetric(sa, sb, cl);
        }
    }
    if i == la && i == lb {
        proof {
            assert(sa =~= sa.take(i as int));
            assert(sb =~= sb.take(i as int));
        }
        Rank::Same
    } else if i == la {
        proof {
            assert(sa.skip(i as int).len() == 0);
            assert(sa != sb);
        }
        Rank::Before
    } else if i == lb {
        proof {
            assert(sb.skip(i as int).len() == 0);
            assert(sa.len() != sb.len());
        }
        Rank::After
    } else {
        proof {
            assert(sa.skip(i as int)[0] == sa[i as int]);
            assert(sb.skip(i as int)[0] == sb[i as int]);
            assert(sa[i as int] != sb[i as int]);
        }
        if (a[a0 + i] as u32) < (b[b0 + i] as u32) {
            Rank::Before
        } else {
            proof {
                vstd::utf8::char_u32_cast(sa[i as int], sa[i as int] as u32);
                vstd::utf8::char_u32_cast(sb[i as int], sb[i as int] as u32);
            }
            Rank::After
        }
    }
}


/// Compares a component of `a` with a component of `b`.
pub fn compare_parts(a: &ParsedPath, x: PathPart, b: &ParsedPath, y: PathPart) -> (r: Rank)
    requires
        match x {
            PathPart::Normal(i, j) => i <= j <= a.chars@.len(),
            _ => true,
        },
        match y {
            PathPart::Normal(i, j) => i <= j <= b.chars@.len(),
            _ => true,
        },
    ensures
        (r == Rank::Before) == comp_lt(part_view(x, a.chars@), part_view(y, b.chars@)),
        (r == Rank::Same) == (part_view(x, a.chars@) == part_view(y, b.chars@)),
        (r == Rank::After) == comp_lt(part_view(y, b.chars@), part_view(x, a.chars@)),
{
    match (x, y) {
        (PathPart::Normal(i, j), PathPart::Normal(k, l)) => compare_ranges(&a.chars, i, j, &b.chars, k, l),
        _ => {
            let rx: u8 = match x {
                PathPart::RootDir => 0,
                PathPart::CurDir => 1,
                PathPart::ParentDir => 2,
                PathPart::Normal(_, _) => 3,
            };
            let ry: u8 = match y {
                PathPart::RootDir => 0,
                PathPart::CurDir => 1,
                PathPart::ParentDir => 2,
                PathPart::Normal(_, _) => 3,
            };
            if rx < ry {
                Rank::Before
            } else if rx == ry {
                Rank::Same
            } else {
                Rank::After
            }
        },
    }
}

/// Compares two paths as `std::path::Path` orders them.
pub fn compare_paths(a: &ParsedPath, b: &ParsedPath) -> (r: Rank)
    requires
        a.wf(),
        b.wf(),
    ensures
        (r == Rank::Before) == comps_lt(a.comps(), b.comps()),
        (r == Rank::Same) == (a.comps() == b.comps()),
        (r == Rank::After) == comps_lt(b.comps(), a.comps()),
{
    let ghost ca = a.comps();
    let ghost cb = b.comps();
    let ghost cl = |x: Comp, y: Comp| comp_lt(x, y);
    proof {
        lemma_comps_lt_facts(ca, cb, ca);
        lemma_comps_lt_facts(cb, ca, cb);
        assert(ca.skip(0) =~= ca);
        assert(cb.skip(0) =~= cb);
    }
    let mut i: usize = 0;
    while i < a.parts.len() && i < b.parts.len()
        invariant
            a.wf(),
            b.wf(),
            ca == a.comps(),
            cb == b.comps(),
            ca.len() == a.parts@.len(),
            cb.len() == b.parts@.len(),
            i <= ca.len(),
            i <= cb.len(),
            cl == (|x: Comp, y: Comp| comp_lt(x, y)),
            comps_lt(ca, cb) == lex_lt(ca.skip(i as int), cb.skip(i as int), cl),
            comps_lt(cb, ca) == lex_lt(cb.skip(i as int), ca.skip(i as int), cl),
            ca.take(i as int) == cb.take(i as int),
        decreases ca.len() - i,
    {
        let x = a.parts[i];
        let y = b.parts[i];
        proof {
            assert(ca[i as int] == part_view(x, a.chars@));
            assert(cb[i as int] == part_view(y, b.chars@));
        }
        let here = compare_parts(a, x, b, y);
        if here != Rank::Same {
            proof {
                assert(ca.skip(i as int)[0] == ca[i as int]);
                assert(cb.skip(i as int)[0] == cb[i as int]);
                assert(ca != cb);
                lemma_comp_lt_strict_total();
            }
            return here;
        }
        proof {
            lemma_lex_skip(ca, cb, i as int, cl);
            lemma_lex_skip(cb, ca, i as int, cl);
            assert(ca.take(i + 1) =~= ca.take(i as int).push(ca[i as int]));
            assert(cb.take(i + 1) =~= cb.take(i as int).push(cb[i as int]));
        }
        i = i + 1;
    }
    if i == a.parts.len() && i == b.parts.len() {
        proof {
            assert(ca =~= ca.take(i as int));
            assert(cb =~= cb.take(i as int));
        }
        Rank::Same
    } else if i == a.parts.len() {
        proof {
            assert(ca.skip(i as int).len() == 0);
            assert(ca.len() != cb.len());
        }
        Rank::Before
    } else {
        proof {
            assert(cb.skip(i as int).len() == 0);
            assert(ca.len() != cb.len());
        }
        Rank::After
    }
}

/// The file name of the path `s`, as `Path::file_name` gives it: its last
/// component, where that is a name.
pub open spec fn file_name(s: Seq<char>) -> Option<Seq<char>> {
    let c = components(s);
    if c.len() > 0 && c.last() is Normal {
        Some(c.last()->Normal_0)
    } else {
        None
    }
}

/// The file name of the path `p`, as `Path::file_name` gives it.
pub fn path_file_name(p: &str) -> (r: Option<String>)
    ensures
        match r {
            Some(n) => file_name(p@) == Some(n@),
            None => file_name(p@) is None,
        },
{
    let parsed = parse_path(p);
    let n = parsed.parts.len();
    if n == 0 {
        return None;
    }
    let last = parsed.parts[n - 1];
    proof {
        assert(parsed.comps().last() == part_view(last, p@));
    }
    match last {
        PathPart::Normal(a, b) => {
            proof {
                assert(parsed.parts@[n - 1] == last);
            }
            Some(p.substring_char(a, b).to_owned())
        },
        _ => None,
    }
}

/// The number of names among the components of the path `s`.
pub open spec fn normal_count(c: Seq<Comp>) -> nat
    decreases c.len(),
{
    if c.len() == 0 {
        0
    } else {
        normal_count(c.drop_last()) + if c.last() is Normal {
            1nat
        } else {
            0nat
        }
    }
}

/// How many directory levels the path `p` names: its components that are names.
pub fn normal_depth(p: &str) -> (n: usize)
    ensures
        n == normal_count(components(p@)),
{
    let parsed = parse_path(p);
    let ghost c = parsed.comps();
    let mut i: usize = 0;
    let mut n: usize = 0;
    assert(c.take(0) =~= Seq::<Comp>::empty());
    while i < parsed.parts.len()
        invariant
            c == parsed.comps(),
            c.len() == parsed.parts@.len(),
            i <= c.len(),
            n <= i,
            n == normal_count(c.take(i as int)),
        decreases c.len() - i,
    {
        proof {
            assert(c.take(i + 1).drop_last() =~= c.take(i as int));
            assert(c[i as int] == part_view(parsed.parts@[i as int], parsed.chars@));
        }
        if let PathPart::Normal(_, _) = parsed.parts[i] {
            n = n + 1;
        }
        i = i + 1;
    }
    assert(c.take(i as int) =~= c);
    n
}

} // verus!
