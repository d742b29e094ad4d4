//! Splitting `SKILL.md` into its YAML frontmatter and its Markdown body.
use vstd::prelude::*;
use vstd::string::{StrSliceExecFns, StringExecFns};
use crate::text::{
    utf8_width,
    chars_of, chars_start_with, is_char_offset, char_offset, char_index_at_byte, lemma_next_line,
    lemma_utf8_len_concat, lemma_utf8_len_monotone, lemma_utf8_len_subrange, line_at, line_bounds, newline_from, next_line, starts_with,
    trim_end, trim_end_length, utf8_len, utf8_length,
};
use crate::yaml::{YamlNode, YamlValue, entries_view, parse_yaml, yaml_parse};

verus! {

/// The line that opens and closes the frontmatter.
pub open spec fn fence() -> Seq<char> {
    seq!['-', '-', '-']
}

/// The opening fence with its line feed.
pub open spec fn fence_line() -> Seq<char> {
    seq!['-', '-', '-', '\n']
}

/// The message when `SKILL.md` does not open with a frontmatter fence.
pub open spec fn msg_no_frontmatter() -> Seq<char> {
    "SKILL.md must start with YAML frontmatter delimited by ---"@
}

/// The message when the frontmatter has no closing fence.
pub open spec fn msg_unclosed() -> Seq<char> {
    "YAML frontmatter must be closed with ---"@
}

/// The prefix of the message when the frontmatter is not YAML.
pub open spec fn msg_invalid_yaml() -> Seq<char> {
    "YAML frontmatter is invalid: "@
}

/// The message when the frontmatter is YAML but not a mapping.
pub open spec fn msg_not_mapping() -> Seq<char> {
    "YAML frontmatter must be a mapping"@
}

/// `s` opens with a frontmatter fence: it begins with `---` and a line feed, or
/// is `---` with trailing white space, and its first line is `---`.
pub open spec fn opens_frontmatter(s: Seq<char>) -> bool {
    &&& starts_with(s, fence_line()) || trim_end(s) == fence()
    &&& s.len() > 0
    &&& line_at(s, 0) == fence()
}

/// A line `---` starts at or after the line that starts at `p`.
pub open spec fn closes_from(s: Seq<char>, p: int) -> bool
    decreases s.len() - p,
{
    if p < 0 || p >= s.len() {
        false
    } else if line_at(s, p) == fence() {
        true
    } else {
        proof {
            lemma_next_line(s, p);
        }
        closes_from(s, next_line(s, p))
    }
}

/// The frontmatter text from the line at `p` up to the closing fence: each
/// line's text followed by a line feed.
pub open spec fn frontmatter_from(s: Seq<char>, p: int) -> Seq<char>
    decreases s.len() - p,
{
    if p < 0 || p >= s.len() {
        Seq::empty()
    } else if line_at(s, p) == fence() {
        Seq::empty()
    } else {
        proof {
            lemma_next_line(s, p);
        }
        line_at(s, p) + seq!['\n'] + frontmatter_from(s, next_line(s, p))
    }
}

/// The bytes counted for the frontmatter lines from `p` up to the closing
/// fence: each line's UTF-8 length plus one.
pub open spec fn consumed_from(s: Seq<char>, p: int) -> nat
    decreases s.len() - p,
{
    if p < 0 || p >= s.len() {
        0
    } else if line_at(s, p) == fence() {
        0
    } else {
        proof {
            lemma_next_line(s, p);
        }
        utf8_len(line_at(s, p)) + 1 + consumed_from(s, next_line(s, p))
    }
}

/// The text of `s` from byte `b` on, or nothing where `b` is not at a character
/// boundary within `s` (as `str::get(b..)` with `unwrap_or_default`), without a
/// leading `---` line.
pub open spec fn body_at(s: Seq<char>, b: int) -> Seq<char> {
    let rest = if is_char_offset(s, b) {
        s.skip(char_offset(s, b))
    } else {
        Seq::empty()
    };
    if starts_with(rest, fence_line()) {
        rest.skip(4)
    } else {
        rest
    }
}

/// How `SKILL.md` splits into frontmatter text and body, or the message of the error.
pub open spec fn split_markdown(s: Seq<char>) -> Result<(Seq<char>, Seq<char>), Seq<char>> {
    if !opens_frontmatter(s) {
        Err(msg_no_frontmatter())
    } else {
        let p = next_line(s, 0);
        if !closes_from(s, p) {
            Err(msg_unclosed())
        } else {
            Ok((frontmatter_from(s, p), body_at(s, 4 + consumed_from(s, p) as int)))
        }
    }
}

/// Whether `s[a..b]` is `---`.
fn is_fence(s: &Vec<char>, a: usize, b: usize) -> (r: bool)
    requires
        a <= b <= s@.len(),
    ensures
        r == (s@.subrange(a as int, b as int) == fence()),
{
    proof {
        assert(fence().len() == 3 && fence()[0] == '-' && fence()[1] == '-' && fence()[2] == '-');
    }
    if b - a == 3 && s[a] == '-' && s[a + 1] == '-' && s[a + 2] == '-' {
        assert(s@.subrange(a as int, b as int) =~= fence());
        true
    } else {
        proof {
            if s@.subrange(a as int, b as int) == fence() {
                assert(s@.subrange(a as int, b as int)[0] == '-');
                assert(s@.subrange(a as int, b as int)[1] == '-');
                assert(s@.subrange(a as int, b as int)[2] == '-');
            }
        }
        false
    }
}

/// Whether `s[k..]` begins with `---` and a line feed.
fn fence_line_at(s: &Vec<char>, k: usize) -> (r: bool)
    requires
        k <= s@.len(),
    ensures
        r == starts_with(s@.skip(k as int), fence_line()),
{
    let ghost t = s@.skip(k as int);
    if s.len() - k >= 4 && s[k] == '-' && s[k + 1] == '-' && s[k + 2] == '-' && s[k + 3] == '\n' {
        assert(t.take(4) =~= fence_line());
        true
    } else {
        proof {
            if starts_with(t, fence_line()) {
                assert(t.take(4)[0] == '-' && t.take(4)[1] == '-' && t.take(4)[2] == '-' && t.take(
                    4,
                )[3] == '\n');
            }
        }
        false
    }
}

/// The frontmatter text and the bytes counted for it, from the line at `p1` up to
/// the closing fence; `None` where no line `---` closes it.
fn scan_frontmatter(source: &str, s: &Vec<char>, p1: usize) -> (r: Option<(String, u128)>)
    requires
        s@ == source@,
        p1 <= s@.len(),
    ensures
        r is Some <==> closes_from(s@, p1 as int),
        r matches Some((fm, c)) ==> fm@ == frontmatter_from(s@, p1 as int) && c == 4
            + consumed_from(s@, p1 as int),
{
    let total = utf8_length(source);
    let mut fm = String::new();
    let mut consumed: u128 = 4;
    let mut p = p1;
    proof {
        assert(fm@ + frontmatter_from(s@, p as int) =~= frontmatter_from(s@, p1 as int));
        lemma_utf8_len_subrange(s@, p as int, s@.len() as int);
        assert(s@.take(s@.len() as int) =~= s@);
    }
    while p < s.len()
        invariant
            s@ == source@,
            total == utf8_len(s@),
            p1 <= p <= s@.len(),
            closes_from(s@, p1 as int) == closes_from(s@, p as int),
            fm@ + frontmatter_from(s@, p as int) == frontmatter_from(s@, p1 as int),
            consumed + consumed_from(s@, p as int) == 4 + consumed_from(s@, p1 as int),
            consumed <= 4 + utf8_len(s@.take(p as int)) + p,
            utf8_len(s@.take(p as int)) <= utf8_len(s@),
        decreases s@.len() - p,
    {
        let (e, n) = line_bounds(s, p);
        if is_fence(s, p, e) {
            proof {
                assert(frontmatter_from(s@, p as int) =~= Seq::<char>::empty());
                assert(fm@ =~= frontmatter_from(s@, p1 as int));
            }
            return Some((fm, consumed));
        }
        let line = source.substring_char(p, e);
        let w = utf8_length(line);
        proof {
            lemma_utf8_len_subrange(s@, p as int, n as int);
            assert(s@.subrange(p as int, n as int) =~= s@.subrange(p as int, e as int) + s@.subrange(
                e as int,
                n as int,
            ));
            lemma_utf8_len_concat(s@.subrange(p as int, e as int), s@.subrange(e as int, n as int));
            lemma_utf8_len_subrange(s@, n as int, s@.len() as int);
            assert(s@.take(s@.len() as int) =~= s@);
            assert(fm@ + line@ + "\n"@ + frontmatter_from(s@, n as int) =~= fm@ + frontmatter_from(
                s@,
                p as int,
            )) by {
                reveal_strlit("\n");
            }
        }
        fm.append(line);
        fm.append("\n");
        consumed = consumed + (w as u128) + 1;
        p = n;
    }
    None
}

/// The text of `source` from byte `b` on, as `body_at` says.
fn body_after<'a>(source: &'a str, s: &Vec<char>, b: u128) -> (body: &'a str)
    requires
        s@ == source@,
    ensures
        body@ == body_at(s@, b as int),
{
    let total = utf8_length(source);
    let start: Option<usize> = if b <= (total as u128) {
        char_index_at_byte(s, b as usize)
    } else {
        proof {
            assert forall|k: int| 0 <= k <= s@.len() implies utf8_len(#[trigger] s@.take(k))
                != b by {
                lemma_utf8_len_subrange(s@, k, s@.len() as int);
                assert(s@.take(s@.len() as int) =~= s@);
            }
        }
        None
    };
    let len = s.len();
    match start {
        Some(k) => {
            let rest = source.substring_char(k, len);
            proof {
                assert(rest@ =~= s@.skip(k as int));
            }
            if fence_line_at(s, k) {
                let body = rest.substring_char(4, len - k);
                proof {
                    assert(body@ =~= rest@.skip(4));
                }
                body
            } else {
                rest
            }
        },
        None => {
            let rest = source.substring_char(len, len);
            proof {
                assert(rest@ =~= Seq::<char>::empty());
            }
            rest
        },
    }
}

/// Splits `SKILL.md` into the text of its YAML frontmatter and its body.
pub fn split_frontmatter(source: &str) -> (r: Result<(String, &str), String>)
    ensures
        match r {
            Ok((fm, body)) => split_markdown(source@) == Ok::<(Seq<char>, Seq<char>), Seq<char>>((fm@, body@)),
            Err(m) => split_markdown(source@) == Err::<(Seq<char>, Seq<char>), Seq<char>>(m@),
        },
{
    let s = chars_of(source);
    let starts = chars_start_with(&s, "---\n");
    proof {
        assert("---\n"@ == fence_line()) by {
            reveal_strlit("---\n");
        }
    }
    let te = trim_end_length(&s);
    proof {
        crate::text::lemma_trim_end_len(s@);
    }
    let trimmed_fence = is_fence(&s, 0, te);
    proof {
        assert(s@.subrange(0, te as int) =~= trim_end(s@));
    }
    if !(starts || trimmed_fence) || s.len() == 0 {
        return Err("SKILL.md must start with YAML frontmatter delimited by ---".to_owned());
    }
    let (e0, p1) = line_bounds(&s, 0);
    if !is_fence(&s, 0, e0) {
        return Err("SKILL.md must start with YAML frontmatter delimited by ---".to_owned());
    }
    match scan_frontmatter(source, &s, p1) {
        None => Err("YAML frontmatter must be closed with ---".to_owned()),
        Some((fm, consumed)) => {
            let body = body_after(source, &s, consumed);
            Ok((fm, body))
        },
    }
}

/// The frontmatter of a skill: the entries of its YAML mapping, in document order.
#[derive(Debug)]
pub struct Frontmatter {
    pub entries: Vec<(YamlValue, YamlValue)>,
}

impl View for Frontmatter {
    type V = Seq<(YamlNode, YamlNode)>;

    open spec fn view(&self) -> Seq<(YamlNode, YamlNode)> {
        entries_view(self.entries@)
    }
}

/// The frontmatter that a YAML outcome gives, or the message of the error.
pub open spec fn frontmatter_outcome(
    y: Result<Option<Seq<(YamlNode, YamlNode)>>, Seq<char>>,
) -> Result<Seq<(YamlNode, YamlNode)>, Seq<char>> {
    match y {
        Err(e) => Err(msg_invalid_yaml() + e),
        Ok(None) => Err(msg_not_mapping()),
        Ok(Some(es)) => Ok(es),
    }
}

/// The frontmatter that parsing its YAML gave, or the message of the error.
pub fn frontmatter_from_yaml(parsed: Result<Option<Vec<(YamlValue, YamlValue)>>, String>) -> (r:
    Result<Frontmatter, String>)
    ensures
        match r {
            Ok(f) => frontmatter_outcome(crate::yaml::yaml_outcome(parsed)) == Ok::<
                Seq<(YamlNode, YamlNode)>,
                Seq<char>,
            >(f@),
            Err(m) => frontmatter_outcome(crate::yaml::yaml_outcome(parsed)) == Err::<
                Seq<(YamlNode, YamlNode)>,
                Seq<char>,
            >(m@),
        },
{
    match parsed {
        Err(e) => {
            let mut m = "YAML frontmatter is invalid: ".to_owned();
            m.append(e.as_str());
            Err(m)
        },
        Ok(None) => Err("YAML frontmatter must be a mapping".to_owned()),
        Ok(Some(entries)) => Ok(Frontmatter { entries }),
    }
}

/// The frontmatter entries and body of `SKILL.md`, or the message of the error.
pub open spec fn parse_markdown(s: Seq<char>) -> Result<(Seq<(YamlNode, YamlNode)>, Seq<char>), Seq<char>> {
    match split_markdown(s) {
        Err(m) => Err(m),
        Ok((fm, body)) => match frontmatter_outcome(yaml_parse(fm)) {
            Err(m) => Err(m),
            Ok(es) => Ok((es, body)),
        },
    }
}

/// Parses `SKILL.md` into its YAML frontmatter mapping and its body.
pub fn parse_skill_markdown(source: &str) -> (r: Result<(Frontmatter, &str), String>)
    ensures
        match r {
            Ok((f, body)) => parse_markdown(source@) == Ok::<
                (Seq<(YamlNode, YamlNode)>, Seq<char>),
                Seq<char>,
            >((f@, body@)),
            Err(m) => parse_markdown(source@) == Err::<
                (Seq<(YamlNode, YamlNode)>, Seq<char>),
                Seq<char>,
            >(m@),
        },
{
    let (text, body) = split_frontmatter(source)?;
    let frontmatter = frontmatter_from_yaml(parse_yaml(text.as_str()))?;
    Ok((frontmatter, body))
}


/// The text of the lines `ls`, each followed by a line feed.
pub open spec fn joined(ls: Seq<Seq<char>>) -> Seq<char>
    decreases ls.len(),
{
    if ls.len() == 0 {
        Seq::empty()
    } else {
        ls[0] + seq!['\n'] + joined(ls.drop_first())
    }
}

/// A line that can stand in frontmatter: it holds no line feed or carriage
/// return, and it is not the fence `---`.
pub open spec fn plain_line(l: Seq<char>) -> bool {
    &&& forall|i: int| 0 <= i < l.len() ==> #[trigger] l[i] != '\n' && l[i] != '\r'
    &&& l != fence()
}

/// The search for a line feed from `i` stops at the first one.
proof fn lemma_newline_at(s: Seq<char>, i: int, e: int)
    requires
        0 <= i <= e < s.len(),
        s[e] == '\n',
        forall|j: int| i <= j < e ==> s[j] != '\n',
    ensures
        newline_from(s, i) == e,
    decreases e - i,
{
    if i < e {
        lemma_newline_at(s, i + 1, e);
    }
}

/// Where `s` from `p` on is the lines `ls`, a fence line and then anything,
/// the frontmatter from `p` is closed, is the text of `ls`, and counts its bytes.
proof fn lemma_frontmatter_lines(s: Seq<char>, p: int, ls: Seq<Seq<char>>, rest: Seq<char>)
    requires
        0 <= p <= s.len(),
        s.skip(p) == joined(ls) + fence_line() + rest,
        forall|k: int| 0 <= k < ls.len() ==> plain_line(#[trigger] ls[k]),
    ensures
        closes_from(s, p),
        frontmatter_from(s, p) == joined(ls),
        consumed_from(s, p) == utf8_len(joined(ls)),
    decreases ls.len(),
{
    let t = s.skip(p);
    if ls.len() == 0 {
        assert(t =~= fence_line() + rest);
        assert(s[p] == t[0] && s[p + 1] == t[1] && s[p + 2] == t[2] && s[p + 3] == t[3]);
        lemma_newline_at(s, p, p + 3);
        assert(line_at(s, p) =~= fence());
    } else {
        let l = ls[0];
        let r = ls.drop_first();
        assert forall|k: int| 0 <= k < r.len() implies plain_line(#[trigger] r[k]) by {
            assert(r[k] == ls[k + 1]);
        }
        assert(plain_line(l));
        let n = l.len() as int;
        assert(t =~= l + seq!['\n'] + (joined(r) + fence_line() + rest));
        assert forall|j: int| p <= j < p + n implies s[j] != '\n' by {
            assert(s[j] == t[j - p]);
            assert(t[j - p] == l[j - p]);
        }
        assert(s[p + n] == t[n]);
        lemma_newline_at(s, p, p + n);
        if n > 0 {
            assert(s[p + n - 1] == t[n - 1]);
            assert(t[n - 1] == l[n - 1]);
        }
        assert(line_at(s, p) =~= l);
        assert(t.skip(n + 1) =~= joined(r) + fence_line() + rest);
        assert(s.skip(p + n + 1) =~= t.skip(n + 1));
        lemma_frontmatter_lines(s, p + n + 1, r, rest);
        lemma_utf8_len_concat(l, seq!['\n']);
        lemma_utf8_len_concat(l + seq!['\n'], joined(r));
        assert(seq!['\n'].drop_last() =~= Seq::<char>::empty());
        assert(seq!['\n'].last() == '\n');
        assert(utf8_width('\n') == 1);
        assert(utf8_len(Seq::<char>::empty()) == 0);
        assert(utf8_len(seq!['\n']) == 1);
        assert(joined(ls) == l + seq!['\n'] + joined(r));
    }
}

/// `SKILL.md` made of a fence line, frontmatter lines that are not fences, a
/// second fence line and any body splits back into that frontmatter and that
/// body, also where the body itself begins with a fence line; where the
/// frontmatter is a YAML mapping, parsing gives its entries and that body.
pub proof fn lemma_split_roundtrip(ls: Seq<Seq<char>>, body: Seq<char>)
    requires
        forall|k: int| 0 <= k < ls.len() ==> plain_line(#[trigger] ls[k]),
    ensures
        split_markdown(fence_line() + joined(ls) + fence_line() + body) == Ok::<
            (Seq<char>, Seq<char>),
            Seq<char>,
        >((joined(ls), body)),
        yaml_parse(joined(ls)) matches Ok(Some(es)) ==> parse_markdown(
            fence_line() + joined(ls) + fence_line() + body,
        ) == Ok::<(Seq<(YamlNode, YamlNode)>, Seq<char>), Seq<char>>((es, body)),
{
    let j = joined(ls);
    let s = fence_line() + j + fence_line() + body;
    assert(s.take(4) =~= fence_line());
    assert(s[0] == '-' && s[1] == '-' && s[2] == '-' && s[3] == '\n');
    lemma_newline_at(s, 0, 3);
    assert(line_at(s, 0) =~= fence());
    assert(opens_frontmatter(s));
    assert(next_line(s, 0) == 4);
    assert(s.skip(4) =~= j + fence_line() + body);
    lemma_frontmatter_lines(s, 4, ls, body);
    let b: int = 4 + utf8_len(j) as int;
    let k: int = 4 + j.len() as int;
    assert(s.take(k) =~= fence_line() + j);
    lemma_utf8_len_concat(fence_line(), j);
    assert(utf8_len(fence_line()) == 4) by {
        let f = fence_line();
        assert(f.drop_last() =~= seq!['-', '-', '-']);
        assert(seq!['-', '-', '-'].drop_last() =~= seq!['-', '-']);
        assert(seq!['-', '-'].drop_last() =~= seq!['-']);
        assert(seq!['-'].drop_last() =~= Seq::<char>::empty());
        assert(utf8_width('-') == 1 && utf8_width('\n') == 1);
        assert(seq!['-'].last() == '-');
        assert(utf8_len(Seq::<char>::empty()) == 0);
        assert(utf8_len(seq!['-']) == 1);
        assert(seq!['-', '-'].last() == '-');
        assert(seq!['-', '-', '-'].last() == '-');
        assert(f.last() == '\n');
        assert(utf8_len(seq!['-', '-']) == 2);
        assert(utf8_len(seq!['-', '-', '-']) == 3);
    }
    assert(utf8_len(s.take(k)) == b);
    assert(is_char_offset(s, b));
    let c = char_offset(s, b);
    if c != k {
        if c < k {
            lemma_utf8_len_monotone(s, c, k);
        } else {
            lemma_utf8_len_monotone(s, k, c);
        }
    }
    assert(s.skip(k) =~= fence_line() + body);
    assert(s.skip(k).take(4) =~= fence_line());
    assert(s.skip(k).skip(4) =~= body);
}
} // verus!
