//! The checks on a skill's Markdown body: its length, and the relative file
//! references it makes.
use vstd::prelude::*;
use vstd::string::{StrSliceExecFns, StringExecFns};
use crate::order::{char_lt, lemma_char_lt_strict_total, lemma_lex_asymmetric, lemma_lex_irreflexive, lemma_lex_total, lemma_lex_transitive, text_lt};
use crate::order::chars_lt;
use crate::diagnostic::{Diagnostic, DiagnosticView, Severity, diag, diags_view, warning};
use crate::frontmatter::push_diag;
use crate::path::{components, normal_count, normal_depth};
use crate::pattern::{ANGLE_PATTERN, LINK_PATTERN, first_groups, regex_first_groups};
use crate::text::{count_lines, count_words, line_count, same_text, texts, word_count, chars_of, chars_start_with, is_ws, lemma_trim_end_len, lemma_trim_start_from, starts_with, trim, trim_bounds, trim_end_len, trim_start_from};

verus! {

/// The index of the first `c` in `s` at or after `i`, or the length of `s`.
pub open spec fn find_char_from(s: Seq<char>, c: char, i: int) -> int
    decreases s.len() - i,
{
    if i >= s.len() {
        s.len() as int
    } else if s[i] == c {
        i
    } else {
        find_char_from(s, c, i + 1)
    }
}

/// The index of the first `c` in `s`, or the length of `s`.
pub open spec fn find_char(s: Seq<char>, c: char) -> int {
    find_char_from(s, c, 0)
}

/// Where `find_char_from` lands: at a `c`, or at the end, with no `c` before it.
pub proof fn lemma_find_char_from(s: Seq<char>, c: char, i: int)
    requires
        0 <= i <= s.len(),
    ensures
        i <= find_char_from(s, c, i) <= s.len(),
        find_char_from(s, c, i) < s.len() ==> s[find_char_from(s, c, i)] == c,
        forall|j: int| i <= j < find_char_from(s, c, i) ==> s[j] != c,
    decreases s.len() - i,
{
    if i < s.len() && s[i] != c {
        lemma_find_char_from(s, c, i + 1);
    }
}

/// Where `find_char` lands: at the first `c`, or at the end.
pub proof fn lemma_find_char(s: Seq<char>, c: char)
    ensures
        0 <= find_char(s, c) <= s.len(),
        find_char(s, c) < s.len() ==> s[find_char(s, c)] == c,
        forall|j: int| 0 <= j < find_char(s, c) ==> s[j] != c,
{
    lemma_find_char_from(s, c, 0);
}

/// The text of `s` before its first `c`, as `s.split(c).next()` gives it.
pub open spec fn before_char(s: Seq<char>, c: char) -> Seq<char> {
    s.take(find_char(s, c))
}

/// A link target reduced to the file it names: without a `#fragment` or a
/// `?query` and without surrounding white space; `None` where nothing is left, or
/// where it is absolute, an anchor, or an `http`, `https` or `mailto` URL.
pub open spec fn normalize(t: Seq<char>) -> Option<Seq<char>> {
    let c = trim(before_char(before_char(t, '#'), '?'));
    if c.len() == 0 || c[0] == '/' || c[0] == '#' || starts_with(c, "http://"@) || starts_with(
        c,
        "https://"@,
    ) || starts_with(c, "mailto:"@) {
        None
    } else {
        Some(c)
    }
}

/// The index of the first `c` in `v`, or its length.
pub fn first_index(v: &Vec<char>, c: char) -> (i: usize)
    ensures
        i == find_char(v@, c),
{
    let mut i: usize = 0;
    while i < v.len() && v[i] != c
        invariant
            i <= v@.len(),
            find_char(v@, c) == find_char_from(v@, c, i as int),
        decreases v@.len() - i,
    {
        i = i + 1;
    }
    i
}

/// The characters `v[a..b]`.
pub fn slice_chars(v: &Vec<char>, a: usize, b: usize) -> (p: Vec<char>)
    requires
        a <= b <= v@.len(),
    ensures
        p@ == v@.subrange(a as int, b as int),
{
    let mut p: Vec<char> = Vec::new();
    let mut i: usize = a;
    while i < b
        invariant
            a <= i <= b <= v@.len(),
            p@ == v@.subrange(a as int, i as int),
        decreases b - i,
    {
        p.push(v[i]);
        proof {
            assert(v@.subrange(a as int, i + 1) =~= v@.subrange(a as int, i as int).push(v@[i as int]));
        }
        i = i + 1;
    }
    p
}

/// The file that a link target names, if it is a relative reference.
pub fn normalize_reference(target: &str) -> (r: Option<String>)
    ensures
        match r {
            Some(s) => normalize(target@) == Some(s@),
            None => normalize(target@) is None,
        },
{
    let t = chars_of(target);
    let h = first_index(&t, '#');
    proof {
        lemma_find_char(t@, '#');
    }
    let a = slice_chars(&t, 0, h);
    let q = first_index(&a, '?');
    proof {
        lemma_find_char(a@, '?');
    }
    let b = slice_chars(&a, 0, q);
    let (x, y) = trim_bounds(&b);
    let c = slice_chars(&b, x, y);
    proof {
        assert(a@ =~= before_char(t@, '#'));
        assert(b@ =~= before_char(before_char(t@, '#'), '?'));
        assert(c@ == trim(before_char(before_char(t@, '#'), '?')));
        assert(b@ =~= t@.take(q as int));
        assert(c@ =~= t@.subrange(x as int, y as int));
    }
    if c.len() == 0 || c[0] == '/' || c[0] == '#' || chars_start_with(&c, "http://")
        || chars_start_with(&c, "https://") || chars_start_with(&c, "mailto:") {
        return None;
    }
    let s = target.substring_char(x, y);
    Some(s.to_owned())
}

/// Where `s` holds no `c`, the text before its first `c` is the whole of `s`.
proof fn lemma_before_absent(s: Seq<char>, c: char)
    requires
        forall|j: int| 0 <= j < s.len() ==> s[j] != c,
    ensures
        before_char(s, c) == s,
{
    lemma_find_char(s, c);
    assert(s.take(s.len() as int) =~= s);
}

/// A text that begins and ends with a character that is not white space is its own trim.
proof fn lemma_trim_trimmed(s: Seq<char>)
    requires
        s.len() > 0,
        !is_ws(s[0]),
        !is_ws(s.last()),
    ensures
        trim(s) == s,
{
    assert(trim_start_from(s, 0) == 0);
    lemma_trim_end_len(s);
    assert(s.subrange(0, s.len() as int) =~= s);
}

/// A reference is already normal: normalizing the reference that
/// `normalize_reference` gives back gives that reference back unchanged.
pub proof fn lemma_normalize_idempotent(t: Seq<char>)
    requires
        normalize(t) is Some,
    ensures
        normalize(normalize(t)->0) == normalize(t),
{
    let a = before_char(t, '#');
    let b = before_char(a, '?');
    let c = trim(b);
    lemma_find_char(t, '#');
    lemma_find_char(a, '?');
    lemma_trim_start_from(b, 0);
    lemma_trim_end_len(b);
    let x = trim_start_from(b, 0);
    let y = trim_end_len(b) as int;
    assert(x < y);
    assert(c == b.subrange(x, y));
    assert forall|j: int| 0 <= j < c.len() implies c[j] != '#' && c[j] != '?' by {
        assert(c[j] == b[x + j]);
        assert(b[x + j] == a[x + j]);
    }
    lemma_before_absent(c, '#');
    lemma_before_absent(c, '?');
    assert(c[0] == b[x]);
    assert(c.last() == b[y - 1]);
    lemma_trim_trimmed(c);
}


/// `q` is in strictly increasing text order.
pub open spec fn strictly_sorted(q: Seq<Seq<char>>) -> bool {
    forall|i: int, j: int| 0 <= i < j < q.len() ==> text_lt(#[trigger] q[i], #[trigger] q[j])
}

/// `q` lists the members of `s` once each, in increasing text order, as a
/// `BTreeSet<String>` yields them.
pub open spec fn lists_set(q: Seq<Seq<char>>, s: Set<Seq<char>>) -> bool {
    &&& strictly_sorted(q)
    &&& forall|r: Seq<char>| q.contains(r) <==> s.contains(r)
}

/// The relative references that the targets `ts` name.
pub open spec fn normalized_targets(ts: Seq<Seq<char>>) -> Set<Seq<char>> {
    Set::new(|r: Seq<char>| exists|i: int| 0 <= i < ts.len() && #[trigger] normalize(ts[i]) == Some(r))
}

/// The relative references that the targets `ts` name, sorted, each once.
pub open spec fn references_in(ts: Seq<Seq<char>>) -> Seq<Seq<char>> {
    choose|q: Seq<Seq<char>>| lists_set(q, normalized_targets(ts))
}

/// The texts of some character vectors.
pub open spec fn char_texts(v: Seq<Vec<char>>) -> Seq<Seq<char>> {
    v.map_values(|k: Vec<char>| k@)
}

/// Text order is a strict total order.
pub proof fn lemma_text_lt_facts(a: Seq<char>, b: Seq<char>, c: Seq<char>)
    ensures
        !text_lt(a, a),
        text_lt(a, b) && text_lt(b, c) ==> text_lt(a, c),
        a != b ==> text_lt(a, b) || text_lt(b, a),
        text_lt(a, b) ==> !text_lt(b, a),
{
    let cl = |x: char, y: char| char_lt(x, y);
    lemma_char_lt_strict_total();
    lemma_lex_irreflexive(a, cl);
    if text_lt(a, b) && text_lt(b, c) {
        lemma_lex_transitive(a, b, c, cl);
    }
    if a != b {
        lemma_lex_total(a, b, cl);
    }
    if text_lt(a, b) {
        lemma_lex_asymmetric(a, b, cl);
    }
}

/// Inserting `x` where everything before is smaller and everything after is
/// larger keeps a sequence strictly sorted.
pub proof fn lemma_insert_sorted(q: Seq<Seq<char>>, i: int, x: Seq<char>)
    requires
        strictly_sorted(q),
        0 <= i <= q.len(),
        forall|j: int| 0 <= j < i ==> text_lt(#[trigger] q[j], x),
        i < q.len() ==> text_lt(x, q[i]),
    ensures
        strictly_sorted(q.insert(i, x)),
{
    let r = q.insert(i, x);
    assert forall|a: int, b: int| 0 <= a < b < r.len() implies text_lt(#[trigger] r[a], #[trigger] r[b]) by {
        if b < i {
            assert(r[a] == q[a] && r[b] == q[b]);
        } else if b == i {
            assert(r[b] == x && r[a] == q[a]);
        } else if a == i {
            assert(r[a] == x && r[b] == q[b - 1]);
            if b - 1 > i {
                lemma_text_lt_facts(x, q[i], q[b - 1]);
            }
        } else if a < i {
            assert(r[a] == q[a] && r[b] == q[b - 1]);
        } else {
            assert(r[a] == q[a - 1] && r[b] == q[b - 1]);
        }
    }
}

/// A set has one strictly sorted listing.
pub proof fn lemma_lists_set_unique(q1: Seq<Seq<char>>, q2: Seq<Seq<char>>, s: Set<Seq<char>>)
    requires
        lists_set(q1, s),
        lists_set(q2, s),
    ensures
        q1 == q2,
    decreases q1.len(),
{
    if q1.len() == 0 {
        if q2.len() > 0 {
            assert(q2.contains(q2[0]));
            assert(!q1.contains(q2[0]));
        }
        assert(q1 =~= q2);
    } else {
        assert(q1.contains(q1[0]));
        assert(q2.contains(q1[0]));
        let x = q1[0];
        let j = choose|j: int| 0 <= j < q2.len() && q2[j] == x;
        assert(q2.contains(q2[0]));
        let k = choose|k: int| 0 <= k < q1.len() && q1[k] == q2[0];
        if j > 0 {
            assert(text_lt(q2[0], q2[j]));
            if k > 0 {
                assert(text_lt(q1[0], q1[k]));
                lemma_text_lt_facts(q1[0], q2[0], q1[0]);
            }
        }
        assert(q2[0] == x);
        let t = s.remove(x);
        let d1 = q1.drop_first();
        let d2 = q2.drop_first();
        assert forall|r: Seq<char>| d1.contains(r) <==> t.contains(r) by {
            if d1.contains(r) {
                let a = choose|a: int| 0 <= a < d1.len() && d1[a] == r;
                assert(q1[a + 1] == r);
                assert(text_lt(q1[0], q1[a + 1]));
                lemma_text_lt_facts(x, r, x);
                assert(q1.contains(r));
            }
            if t.contains(r) {
                assert(q1.contains(r));
                let a = choose|a: int| 0 <= a < q1.len() && q1[a] == r;
                assert(a != 0);
                assert(d1[a - 1] == r);
            }
        }
        assert forall|r: Seq<char>| d2.contains(r) <==> t.contains(r) by {
            if d2.contains(r) {
                let a = choose|a: int| 0 <= a < d2.len() && d2[a] == r;
                assert(q2[a + 1] == r);
                assert(text_lt(q2[0], q2[a + 1]));
                lemma_text_lt_facts(x, r, x);
                assert(q2.contains(r));
            }
            if t.contains(r) {
                assert(q2.contains(r));
                let a = choose|a: int| 0 <= a < q2.len() && q2[a] == r;
                assert(a != 0);
                assert(d2[a - 1] == r);
            }
        }
        assert forall|a: int, b: int| 0 <= a < b < d1.len() implies text_lt(#[trigger] d1[a], #[trigger] d1[b]) by {
            assert(d1[a] == q1[a + 1] && d1[b] == q1[b + 1]);
        }
        assert forall|a: int, b: int| 0 <= a < b < d2.len() implies text_lt(#[trigger] d2[a], #[trigger] d2[b]) by {
            assert(d2[a] == q2[a + 1] && d2[b] == q2[b + 1]);
        }
        lemma_lists_set_unique(d1, d2, t);
        assert(q1 =~= seq![x] + d1);
        assert(q2 =~= seq![x] + d2);
    }
}


/// Adds `r` to the sorted listing `refs` (with its characters in `keys`), unless it is there.
fn insert_reference(refs: &mut Vec<String>, keys: &mut Vec<Vec<char>>, r: String)
    requires
        texts(old(refs)@) == char_texts(old(keys)@),
        strictly_sorted(texts(old(refs)@)),
    ensures
        texts(final(refs)@) == char_texts(final(keys)@),
        strictly_sorted(texts(final(refs)@)),
        texts(final(refs)@).to_set() == texts(old(refs)@).to_set().insert(r@),
{
    let rc = chars_of(r.as_str());
    let ghost q = texts(refs@);
    let ghost rv = r@;
    let mut i: usize = 0;
    while i < keys.len() && chars_lt(&keys[i], &rc)
        invariant
            q == texts(refs@),
            q == char_texts(keys@),
            i <= keys@.len(),
            forall|j: int| 0 <= j < i ==> text_lt(#[trigger] q[j], rc@),
        decreases keys@.len() - i,
    {
        i = i + 1;
    }
    if i < keys.len() && !chars_lt(&rc, &keys[i]) {
        proof {
            assert(q[i as int] == keys@[i as int]@);
            lemma_text_lt_facts(q[i as int], rc@, q[i as int]);
            assert(q[i as int] == r@);
            assert(q.to_set() =~= q.to_set().insert(r@));
        }
        return ;
    }
    proof {
        if i < keys@.len() {
            assert(q[i as int] == keys@[i as int]@);
        }
        lemma_insert_sorted(q, i as int, rc@);
    }
    keys.insert(i, rc);
    refs.insert(i, r);
    proof {
        assert(texts(refs@) =~= q.insert(i as int, rv));
        assert(char_texts(keys@) =~= q.insert(i as int, rv));
        assert forall|x: Seq<char>| texts(refs@).contains(x) <==> (q.contains(x) || x == rv) by {
            let nq = q.insert(i as int, rv);
            if nq.contains(x) {
                let a = choose|a: int| 0 <= a < nq.len() && nq[a] == x;
                if a < i {
                    assert(q[a] == x);
                } else if a > i {
                    assert(q[a - 1] == x);
                }
            }
            if q.contains(x) {
                let a = choose|a: int| 0 <= a < q.len() && q[a] == x;
                if a < i {
                    assert(nq[a] == x);
                } else {
                    assert(nq[a + 1] == x);
                }
            }
            if x == rv {
                assert(nq[i as int] == x);
            }
        }
        assert forall|x: Seq<char>| #[trigger] texts(refs@).to_set().contains(x) == q.to_set().insert(rv).contains(x) by {
            assert(texts(refs@).contains(x) <==> (q.contains(x) || x == rv));
        }
        assert(texts(refs@).to_set() =~= q.to_set().insert(rv));
    }
}

/// The relative references that the link targets `targets` name, sorted, each once.
pub fn collect_references(targets: &Vec<String>) -> (refs: Vec<String>)
    ensures
        lists_set(texts(refs@), normalized_targets(texts(targets@))),
{
    let mut refs: Vec<String> = Vec::new();
    let mut keys: Vec<Vec<char>> = Vec::new();
    let ghost ts = texts(targets@);
    proof {
        assert(texts(refs@) =~= char_texts(keys@));
        assert(texts(refs@).to_set() =~= normalized_targets(ts.take(0)));
    }
    let mut k: usize = 0;
    while k < targets.len()
        invariant
            k <= targets@.len(),
            ts == texts(targets@),
            texts(refs@) == char_texts(keys@),
            strictly_sorted(texts(refs@)),
            texts(refs@).to_set() == normalized_targets(ts.take(k as int)),
        decreases targets@.len() - k,
    {
        let ghost before = texts(refs@);
        let n = normalize_reference(targets[k].as_str());
        proof {
            assert(ts[k as int] == targets@[k as int]@);
        }
        match n {
            Some(r) => insert_reference(&mut refs, &mut keys, r),
            None => {},
        }
        proof {
            let p = ts.take(k as int);
            let p1 = ts.take(k + 1);
            assert forall|x: Seq<char>| texts(refs@).to_set().contains(x) <==> normalized_targets(p1).contains(x) by {
                if normalized_targets(p1).contains(x) {
                    let i = choose|i: int| 0 <= i < p1.len() && #[trigger] normalize(p1[i]) == Some(x);
                    if i < k {
                        assert(p[i] == p1[i]);
                        assert(normalized_targets(p).contains(x));
                    }
                }
                if normalized_targets(p).contains(x) {
                    let i = choose|i: int| 0 <= i < p.len() && #[trigger] normalize(p[i]) == Some(x);
                    assert(p1[i] == p[i]);
                    assert(normalized_targets(p1).contains(x));
                }
                if n is Some && x == n->0@ {
                    assert(p1[k as int] == ts[k as int]);
                    assert(normalized_targets(p1).contains(x));
                }
            }
            assert(texts(refs@).to_set() =~= normalized_targets(p1));
        }
        k = k + 1;
    }
    proof {
        assert(ts.take(k as int) =~= ts);
        assert forall|x: Seq<char>| texts(refs@).contains(x) <==> normalized_targets(ts).contains(x) by {
            assert(texts(refs@).to_set().contains(x) == texts(refs@).contains(x));
        }
    }
    refs
}


/// The link targets of a body: group 1 of each match of the Markdown link
/// pattern, then of each match of the angle-bracket pattern.
pub open spec fn link_targets(body: Seq<char>) -> Seq<Seq<char>> {
    regex_first_groups(LINK_PATTERN@, body) + regex_first_groups(ANGLE_PATTERN@, body)
}

/// The relative file references that `body` makes, sorted, each once.
pub fn find_relative_references(body: &str) -> (refs: Vec<String>)
    ensures
        lists_set(texts(refs@), normalized_targets(link_targets(body@))),
        texts(refs@) == references_in(link_targets(body@)),
{
    let mut targets = first_groups(LINK_PATTERN, body);
    let angle = first_groups(ANGLE_PATTERN, body);
    let ghost first = texts(targets@);
    let mut i: usize = 0;
    while i < angle.len()
        invariant
            i <= angle@.len(),
            texts(targets@) == first + texts(angle@).take(i as int),
        decreases angle@.len() - i,
    {
        let ghost before = targets@;
        let item = angle[i].clone();
        assert(item@ == angle@[i as int]@);
        targets.push(item);
        proof {
            assert(targets@ == before.push(item));
            assert(texts(targets@) =~= texts(before).push(item@));
            assert(texts(angle@).take(i + 1) =~= texts(angle@).take(i as int).push(angle@[i as int]@));
            assert(texts(targets@) =~= first + texts(angle@).take(i + 1));
        }
        i = i + 1;
    }
    proof {
        assert(texts(angle@).take(i as int) =~= texts(angle@));
    }
    let refs = collect_references(&targets);
    proof {
        lemma_lists_set_unique(texts(refs@), references_in(link_targets(body@)), normalized_targets(link_targets(body@)));
    }
    refs
}

/// The decimal digit `d`.
pub open spec fn digit(d: nat) -> char {
    (48 + d) as char
}

/// The decimal digits of `n`, as `Display` writes an integer.
pub open spec fn decimal(n: nat) -> Seq<char>
    decreases n,
{
    if n < 10 {
        seq![digit(n)]
    } else {
        decimal(n / 10).push(digit(n % 10))
    }
}

/// The one-digit text of `d`.
fn digit_text(d: usize) -> (s: &'static str)
    requires
        d < 10,
    ensures
        s@ == seq![digit(d as nat)],
{
    if d == 0 {
        proof {
            reveal_strlit("0");
        }
        "0"
    } else if d == 1 {
        proof {
            reveal_strlit("1");
        }
        "1"
    } else if d == 2 {
        proof {
            reveal_strlit("2");
        }
        "2"
    } else if d == 3 {
        proof {
            reveal_strlit("3");
        }
        "3"
    } else if d == 4 {
        proof {
            reveal_strlit("4");
        }
        "4"
    } else if d == 5 {
        proof {
            reveal_strlit("5");
        }
        "5"
    } else if d == 6 {
        proof {
            reveal_strlit("6");
        }
        "6"
    } else if d == 7 {
        proof {
            reveal_strlit("7");
        }
        "7"
    } else if d == 8 {
        proof {
            reveal_strlit("8");
        }
        "8"
    } else {
        proof {
            reveal_strlit("9");
        }
        "9"
    }
}

/// `n` in decimal digits, as `usize::to_string` writes it.
pub(crate) fn decimal_text(n: usize) -> (s: String)
    ensures
        s@ == decimal(n as nat),
    decreases n,
{
    if n < 10 {
        digit_text(n).to_owned()
    } else {
        let mut s = decimal_text(n / 10);
        s.append(digit_text(n % 10));
        s
    }
}

/// The warning about a reference that reaches deeper than one directory.
pub open spec fn depth_warning(r: Seq<char>) -> DiagnosticView {
    diag(
        Severity::Warning,
        "reference-depth"@,
        "Relative file reference `"@ + r + "` should be at most one directory level deep"@,
    )
}

/// The warning about a reference to a file that does not exist.
pub open spec fn missing_warning(r: Seq<char>) -> DiagnosticView {
    diag(Severity::Warning, "missing-reference"@, "Relative file reference `"@ + r + "` does not exist"@)
}

/// The diagnostics for the relative reference `r`, given whether its file exists.
pub open spec fn reference_diags(r: Seq<char>, exists: bool) -> Seq<DiagnosticView> {
    (if normal_count(components(r)) > 2 {
        seq![depth_warning(r)]
    } else {
        Seq::empty()
    }) + (if !exists {
        seq![missing_warning(r)]
    } else {
        Seq::empty()
    })
}

/// The diagnostics for the references `refs`, in order, where `existing` lists the
/// references whose file exists.
pub open spec fn references_diags(refs: Seq<Seq<char>>, existing: Seq<Seq<char>>) -> Seq<
    DiagnosticView,
>
    decreases refs.len(),
{
    if refs.len() == 0 {
        Seq::empty()
    } else {
        references_diags(refs.drop_last(), existing) + reference_diags(
            refs.last(),
            existing.contains(refs.last()),
        )
    }
}

/// The diagnostics for a skill body, where `existing` lists the relative
/// references whose file exists next to `SKILL.md`.
pub open spec fn body_diags(body: Seq<char>, existing: Seq<Seq<char>>) -> Seq<DiagnosticView> {
    let lines = line_count(body);
    let words = word_count(body);
    (if lines > 500 {
        seq![
            diag(
                Severity::Warning,
                "body-line-count"@,
                "SKILL.md body should stay under 500 lines, found "@ + decimal(lines),
            ),
        ]
    } else {
        Seq::empty()
    }) + (if words > 5000 {
        seq![
            diag(
                Severity::Warning,
                "body-token-estimate"@,
                "SKILL.md body should stay under about 5000 tokens, estimated "@ + decimal(words),
            ),
        ]
    } else {
        Seq::empty()
    }) + references_diags(references_in(link_targets(body)), existing)
}

/// Checks how deep the relative reference `reference` reaches, and whether its file exists.
pub fn validate_reference(reference: &str, exists: bool, diagnostics: &mut Vec<Diagnostic>)
    ensures
        diags_view(final(diagnostics)@) == diags_view(old(diagnostics)@) + reference_diags(
            reference@,
            exists,
        ),
{
    let depth = normal_depth(reference);
    if depth > 2 {
        let mut m = "Relative file reference `".to_owned();
        m.append(reference);
        m.append("` should be at most one directory level deep");
        push_diag(diagnostics, warning("reference-depth", m));
    }
    let ghost mid = diags_view(diagnostics@);
    if !exists {
        let mut m = "Relative file reference `".to_owned();
        m.append(reference);
        m.append("` does not exist");
        push_diag(diagnostics, warning("missing-reference", m));
    }
    proof {
        assert(diags_view(diagnostics@) =~= diags_view(old(diagnostics)@) + reference_diags(
            reference@,
            exists,
        ));
    }
}

/// Whether `existing` holds the text `r`.
pub fn contains_text(existing: &Vec<String>, r: &str) -> (b: bool)
    ensures
        b == texts(existing@).contains(r@),
{
    let mut i: usize = 0;
    while i < existing.len()
        invariant
            i <= existing@.len(),
            forall|j: int| 0 <= j < i ==> existing@[j]@ != r@,
        decreases existing@.len() - i,
    {
        if same_text(existing[i].as_str(), r) {
            proof {
                assert(texts(existing@)[i as int] == r@);
            }
            return true;
        }
        i = i + 1;
    }
    proof {
        if texts(existing@).contains(r@) {
            let j = choose|j: int| 0 <= j < texts(existing@).len() && texts(existing@)[j] == r@;
            assert(existing@[j]@ == r@);
        }
    }
    false
}

/// Checks a skill body: its length in lines and in words, and each relative file
/// reference it makes, where `existing` lists the references whose file exists.
pub fn validate_body(body: &str, existing: &Vec<String>, diagnostics: &mut Vec<Diagnostic>)
    ensures
        diags_view(final(diagnostics)@) == diags_view(old(diagnostics)@) + body_diags(
            body@,
            texts(existing@),
        ),
{
    let chars = chars_of(body);
    let line_count = count_lines(&chars);
    if line_count > 500 {
        let mut m = "SKILL.md body should stay under 500 lines, found ".to_owned();
        m.append(decimal_text(line_count).as_str());
        push_diag(diagnostics, warning("body-line-count", m));
    }
    let ghost d1 = diags_view(diagnostics@);
    let token_estimate = count_words(&chars);
    if token_estimate > 5000 {
        let mut m = "SKILL.md body should stay under about 5000 tokens, estimated ".to_owned();
        m.append(decimal_text(token_estimate).as_str());
        push_diag(diagnostics, warning("body-token-estimate", m));
    }
    let ghost d2 = diags_view(diagnostics@);
    let refs = find_relative_references(body);
    let ghost rs = texts(refs@);
    let ghost ex = texts(existing@);
    let mut i: usize = 0;
    proof {
        assert(rs.take(0) =~= Seq::<Seq<char>>::empty());
        assert(diags_view(diagnostics@) =~= d2 + references_diags(rs.take(0), ex));
    }
    while i < refs.len()
        invariant
            i <= refs@.len(),
            rs == texts(refs@),
            ex == texts(existing@),
            diags_view(diagnostics@) == d2 + references_diags(rs.take(i as int), ex),
        decreases refs@.len() - i,
    {
        let exists = contains_text(existing, refs[i].as_str());
        validate_reference(refs[i].as_str(), exists, diagnostics);
        proof {
            assert(rs.take(i + 1).drop_last() =~= rs.take(i as int));
            assert(rs.take(i + 1).last() == rs[i as int]);
            assert(diags_view(diagnostics@) =~= d2 + references_diags(rs.take(i + 1), ex));
        }
        i = i + 1;
    }
    proof {
        assert(rs.take(i as int) =~= rs);
        assert(diags_view(diagnostics@) =~= diags_view(old(diagnostics)@) + body_diags(body@, ex));
    }
}


/// A target that has no `#` or `?`, no white space at either end, and does not
/// start with `/`, `http://`, `https://` or `mailto:` is itself a relative
/// reference, kept unchanged (a target starting with `./` among them).
pub proof fn lemma_normalize_keeps(t: Seq<char>)
    requires
        t.len() > 0,
        forall|i: int| 0 <= i < t.len() ==> #[trigger] t[i] != '#' && t[i] != '?',
        !is_ws(t[0]),
        !is_ws(t.last()),
        t[0] != '/',
        !starts_with(t, "http://"@),
        !starts_with(t, "https://"@),
        !starts_with(t, "mailto:"@),
    ensures
        normalize(t) == Some(t),
{
    lemma_before_absent(t, '#');
    lemma_before_absent(t, '?');
    lemma_trim_trimmed(t);
}

/// What `normalize` keeps is a non-empty text without `#`, `?` or surrounding
/// white space, that starts with neither `/` nor a URL scheme of those dropped.
pub proof fn lemma_normalize_result(t: Seq<char>)
    requires
        normalize(t) is Some,
    ensures
        ({
            let r = normalize(t)->0;
            &&& r.len() > 0
            &&& forall|i: int| 0 <= i < r.len() ==> #[trigger] r[i] != '#' && r[i] != '?'
            &&& !is_ws(r[0]) && !is_ws(r.last())
            &&& r[0] != '/'
            &&& !starts_with(r, "http://"@) && !starts_with(r, "https://"@) && !starts_with(
                r,
                "mailto:"@,
            )
        }),
{
    lemma_normalize_idempotent(t);
    let a = before_char(t, '#');
    let b = before_char(a, '?');
    lemma_find_char(t, '#');
    lemma_find_char(a, '?');
    lemma_trim_start_from(b, 0);
    lemma_trim_end_len(b);
    let x = trim_start_from(b, 0);
    let y = trim_end_len(b) as int;
    let c = trim(b);
    assert(c == b.subrange(x, y));
    assert forall|j: int| 0 <= j < c.len() implies c[j] != '#' && c[j] != '?' by {
        assert(c[j] == b[x + j]);
        assert(b[x + j] == a[x + j]);
    }
    assert(c[0] == b[x]);
    assert(c.last() == b[y - 1]);
}

/// The first `c` of `s` is at `k` where `s[k]` is `c` and none comes before.
proof fn lemma_find_at(s: Seq<char>, c: char, k: int)
    requires
        0 <= k < s.len(),
        s[k] == c,
        forall|j: int| 0 <= j < k ==> s[j] != c,
    ensures
        find_char(s, c) == k,
{
    lemma_find_char(s, c);
}

/// A `#fragment` does not change what a target names.
pub proof fn lemma_normalize_fragment(t: Seq<char>, f: Seq<char>)
    requires
        forall|i: int| 0 <= i < t.len() ==> #[trigger] t[i] != '#',
    ensures
        normalize(t + seq!['#'] + f) == normalize(t),
{
    let s = t + seq!['#'] + f;
    assert forall|j: int| 0 <= j < t.len() implies s[j] != '#' by {
        assert(s[j] == t[j]);
    }
    lemma_find_at(s, '#', t.len() as int);
    assert(before_char(s, '#') =~= t);
    lemma_before_absent(t, '#');
}

/// A `?query` without a `#` does not change what a target without `#` names.
pub proof fn lemma_normalize_query(t: Seq<char>, q: Seq<char>)
    requires
        forall|i: int| 0 <= i < t.len() ==> #[trigger] t[i] != '#' && t[i] != '?',
        forall|i: int| 0 <= i < q.len() ==> #[trigger] q[i] != '#',
    ensures
        normalize(t + seq!['?'] + q) == normalize(t),
{
    let s = t + seq!['?'] + q;
    assert forall|j: int| 0 <= j < s.len() implies s[j] != '#' by {
        if j < t.len() {
            assert(s[j] == t[j]);
        } else if j > t.len() {
            assert(s[j] == q[j - t.len() - 1]);
        }
    }
    lemma_before_absent(s, '#');
    assert forall|j: int| 0 <= j < t.len() implies s[j] != '?' by {
        assert(s[j] == t[j]);
    }
    lemma_find_at(s, '?', t.len() as int);
    assert(before_char(s, '?') =~= t);
    lemma_before_absent(t, '#');
    lemma_before_absent(t, '?');
}

/// A target that is absolute, or a `http`, `https` or `mailto` URL, names no
/// relative reference.
pub proof fn lemma_normalize_drops(t: Seq<char>)
    requires
        t.len() > 0,
        forall|i: int| 0 <= i < t.len() ==> #[trigger] t[i] != '#' && t[i] != '?',
        !is_ws(t[0]),
        !is_ws(t.last()),
        t[0] == '/' || starts_with(t, "http://"@) || starts_with(t, "https://"@) || starts_with(
            t,
            "mailto:"@,
        ),
    ensures
        normalize(t) is None,
{
    lemma_before_absent(t, '#');
    lemma_before_absent(t, '?');
    lemma_trim_trimmed(t);
}

/// A target of white space alone names no relative reference.
pub proof fn lemma_normalize_blank(t: Seq<char>)
    requires
        forall|i: int| 0 <= i < t.len() ==> is_ws(#[trigger] t[i]),
    ensures
        normalize(t) is None,
{
    assert forall|i: int| 0 <= i < t.len() implies #[trigger] t[i] != '#' && t[i] != '?' by {
        assert(is_ws(t[i]));
    }
    lemma_before_absent(t, '#');
    lemma_before_absent(t, '?');
    lemma_trim_start_from(t, 0);
    lemma_trim_end_len(t);
}

/// The body gets a `body-line-count` warning exactly where it has more than 500
/// lines, and a `body-token-estimate` warning exactly where it has more than
/// 5000 words, each message giving the number.
pub proof fn lemma_body_thresholds(body: Seq<char>, existing: Seq<Seq<char>>)
    ensures
        line_count(body) > 500 ==> body_diags(body, existing)[0] == diag(
            Severity::Warning,
            "body-line-count"@,
            "SKILL.md body should stay under 500 lines, found "@ + decimal(line_count(body)),
        ),
        word_count(body) > 5000 ==> body_diags(body, existing)[if line_count(body) > 500 {
            1int
        } else {
            0int
        }] == diag(
            Severity::Warning,
            "body-token-estimate"@,
            "SKILL.md body should stay under about 5000 tokens, estimated "@ + decimal(
                word_count(body),
            ),
        ),
        body_diags(body, existing).len() == (if line_count(body) > 500 {
            1int
        } else {
            0int
        }) + (if word_count(body) > 5000 {
            1int
        } else {
            0int
        }) + references_diags(references_in(link_targets(body)), existing).len(),
{
}

/// The number that the decimal digits `s` write.
pub open spec fn digits_value(s: Seq<char>) -> nat
    decreases s.len(),
{
    if s.len() == 0 {
        0
    } else {
        digits_value(s.drop_last()) * 10 + ((s.last() as int - 48) as nat)
    }
}

/// `decimal(n)` writes `n`: it is made of the digits `0`-`9`, starts with `0`
/// only where it is `0`, and reads back as `n`.
pub proof fn lemma_decimal(n: nat)
    ensures
        decimal(n).len() > 0,
        forall|i: int| 0 <= i < decimal(n).len() ==> '0' <= #[trigger] decimal(n)[i] <= '9',
        decimal(n)[0] == '0' ==> n == 0,
        digits_value(decimal(n)) == n,
    decreases n,
{
    if n < 10 {
        assert(digit(n) as int == 48 + n);
        assert(seq![digit(n)].drop_last() =~= Seq::<char>::empty());
        assert(seq![digit(n)].last() == digit(n));
        assert(digits_value(Seq::<char>::empty()) == 0);
        assert(digits_value(seq![digit(n)]) == n);
    } else {
        lemma_decimal(n / 10);
        let p = decimal(n / 10);
        assert(digit(n % 10) as int == 48 + n % 10);
        assert(p.push(digit(n % 10)).drop_last() =~= p);
        assert(p.push(digit(n % 10))[0] == p[0]);
        assert forall|i: int| 0 <= i < p.push(digit(n % 10)).len() implies '0' <= #[trigger] p.push(
            digit(n % 10),
        )[i] <= '9' by {
            if i < p.len() {
                assert(p.push(digit(n % 10))[i] == p[i]);
            }
        }
        assert(p.push(digit(n % 10)).last() == digit(n % 10));
        assert(digits_value(p.push(digit(n % 10))) == digits_value(p) * 10 + n % 10);
        assert((n / 10) * 10 + n % 10 == n);
    }
}

/// A reference gets a `reference-depth` warning exactly where its path names
/// more than two directory levels or files (so at most one directory deep is
/// fine), and a `missing-reference` warning exactly where its file does not exist.
pub proof fn lemma_reference_rule(r: Seq<char>, exists: bool)
    ensures
        reference_diags(r, exists).len() == (if normal_count(components(r)) > 2 {
            1int
        } else {
            0int
        }) + (if exists {
            0int
        } else {
            1int
        }),
        normal_count(components(r)) > 2 ==> reference_diags(r, exists)[0] == diag(
            Severity::Warning,
            "reference-depth"@,
            "Relative file reference `"@ + r + "` should be at most one directory level deep"@,
        ),
        !exists ==> reference_diags(r, exists).last() == diag(
            Severity::Warning,
            "missing-reference"@,
            "Relative file reference `"@ + r + "` does not exist"@,
        ),
{
}
} // verus!
