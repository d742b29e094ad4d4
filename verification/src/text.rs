//! Text helpers over the characters of a string: lines as `str::lines`
//! splits them, Unicode white space, trimming, UTF-8 widths.
use vstd::prelude::*;

verus! {

broadcast use vstd::string::group_string_axioms;

/// The characters of `s`, in order.
pub fn chars_of(s: &str) -> (v: Vec<char>)
    ensures
        v@ == s@,
{
    let mut v: Vec<char> = Vec::new();
    for c in it: s.chars()
        invariant
            it.seq() == s@,
            v@ == it.seq().take(it.index() as int),
    {
        v.push(c);
    }
    v
}


/// Unicode white space, as `char::is_whitespace` defines it.
pub open spec fn is_ws(c: char) -> bool {
    let u = c as u32;
    ||| 9 <= u <= 13
    ||| u == 32
    ||| u == 0x85
    ||| u == 0xA0
    ||| u == 0x1680
    ||| 0x2000 <= u <= 0x200A
    ||| u == 0x2028
    ||| u == 0x2029
    ||| u == 0x202F
    ||| u == 0x205F
    ||| u == 0x3000
}

/// Whether `c` is Unicode white space.
pub fn is_whitespace(c: char) -> (b: bool)
    ensures
        b == is_ws(c),
{
    let u = c as u32;
    (9 <= u && u <= 13) || u == 32 || u == 0x85 || u == 0xA0 || u == 0x1680 || (0x2000 <= u
        && u <= 0x200A) || u == 0x2028 || u == 0x2029 || u == 0x202F || u == 0x205F || u == 0x3000
}

/// The number of bytes that `c` takes in UTF-8.
pub open spec fn utf8_width(c: char) -> nat {
    let u = c as u32;
    if u < 0x80 {
        1
    } else if u < 0x800 {
        2
    } else if u < 0x10000 {
        3
    } else {
        4
    }
}

/// The number of bytes that `s` takes in UTF-8.
pub open spec fn utf8_len(s: Seq<char>) -> nat
    decreases s.len(),
{
    if s.len() == 0 {
        0
    } else {
        utf8_len(s.drop_last()) + utf8_width(s.last())
    }
}

/// The number of bytes that `c` takes in UTF-8.
pub fn char_utf8_width(c: char) -> (w: usize)
    ensures
        w == utf8_width(c),
{
    let u = c as u32;
    if u < 0x80 {
        1
    } else if u < 0x800 {
        2
    } else if u < 0x10000 {
        3
    } else {
        4
    }
}

/// The first index at or after `i` that holds a line feed, or the length of `s`.
pub open spec fn newline_from(s: Seq<char>, i: int) -> int
    decreases s.len() - i,
{
    if i >= s.len() {
        s.len() as int
    } else if s[i] == '\n' {
        i
    } else {
        newline_from(s, i + 1)
    }
}

/// Where the text of the line that starts at `i` ends: before its line feed, and
/// before a carriage return that stands just before that line feed.
pub open spec fn line_end(s: Seq<char>, i: int) -> int {
    let e = newline_from(s, i);
    if e < s.len() && e > i && s[e - 1] == '\r' {
        e - 1
    } else {
        e
    }
}

/// Where the line after the one that starts at `i` starts.
pub open spec fn next_line(s: Seq<char>, i: int) -> int {
    let e = newline_from(s, i);
    if e < s.len() {
        e + 1
    } else {
        s.len() as int
    }
}

/// The text of the line that starts at `i`, without its line ending.
pub open spec fn line_at(s: Seq<char>, i: int) -> Seq<char> {
    s.subrange(i, line_end(s, i))
}

/// The number of lines from index `i` on, as `str::lines` counts them.
pub open spec fn line_count_from(s: Seq<char>, i: int) -> nat
    decreases s.len() - i,
{
    if i < 0 || i >= s.len() {
        0
    } else {
        proof {
            lemma_next_line(s, i);
        }
        1 + line_count_from(s, next_line(s, i))
    }
}

/// The number of lines of `s`, as `str::lines` counts them.
pub open spec fn line_count(s: Seq<char>) -> nat {
    line_count_from(s, 0)
}

/// Where the search for a line feed from `i` lands.
pub proof fn lemma_newline_from(s: Seq<char>, i: int)
    requires
        0 <= i <= s.len(),
    ensures
        i <= newline_from(s, i) <= s.len(),
        newline_from(s, i) < s.len() ==> s[newline_from(s, i)] == '\n',
        forall|j: int| i <= j < newline_from(s, i) ==> s[j] != '\n',
    decreases s.len() - i,
{
    if i < s.len() && s[i] != '\n' {
        lemma_newline_from(s, i + 1);
    }
}

/// Where the line after the one at `i` starts.
pub proof fn lemma_next_line(s: Seq<char>, i: int)
    requires
        0 <= i < s.len(),
    ensures
        i < next_line(s, i) <= s.len(),
        i <= line_end(s, i) <= next_line(s, i),
        line_end(s, i) <= newline_from(s, i),
{
    lemma_newline_from(s, i);
}

/// Where the text of the line that starts at `i` ends, and where the next line starts.
pub fn line_bounds(s: &Vec<char>, i: usize) -> (r: (usize, usize))
    requires
        i < s@.len(),
    ensures
        r.0 == line_end(s@, i as int),
        r.1 == next_line(s@, i as int),
        i <= r.0 <= r.1 <= s@.len(),
        i < r.1,
{
    let mut e = i;
    while e < s.len() && s[e] != '\n'
        invariant
            i <= e <= s@.len(),
            newline_from(s@, i as int) == newline_from(s@, e as int),
        decreases s@.len() - e,
    {
        e = e + 1;
    }
    proof {
        lemma_next_line(s@, i as int);
    }
    let end = if e < s.len() && e > i && s[e - 1] == '\r' {
        e - 1
    } else {
        e
    };
    let next = if e < s.len() {
        e + 1
    } else {
        e
    };
    (end, next)
}

/// The number of lines of `s`, as `str::lines` counts them.
pub fn count_lines(s: &Vec<char>) -> (n: usize)
    ensures
        n == line_count(s@),
{
    let mut i: usize = 0;
    let mut n: usize = 0;
    while i < s.len()
        invariant
            i <= s@.len(),
            n + line_count_from(s@, i as int) == line_count(s@),
            n <= i,
        decreases s@.len() - i,
    {
        let (_end, next) = line_bounds(s, i);
        n = n + 1;
        i = next;
    }
    n
}


/// Whether a word (a maximal run of characters that are not white space) starts at `i`.
pub open spec fn starts_word(s: Seq<char>, i: int) -> bool {
    !is_ws(s[i]) && (i == 0 || is_ws(s[i - 1]))
}

/// The number of words that start before index `n`.
pub open spec fn word_count_upto(s: Seq<char>, n: int) -> nat
    decreases n,
{
    if n <= 0 {
        0
    } else {
        word_count_upto(s, n - 1) + if starts_word(s, n - 1) {
            1nat
        } else {
            0nat
        }
    }
}

/// The number of words of `s`, as `str::split_whitespace` yields them.
pub open spec fn word_count(s: Seq<char>) -> nat {
    word_count_upto(s, s.len() as int)
}

/// The number of words of `s`, as `str::split_whitespace` yields them.
pub fn count_words(s: &Vec<char>) -> (n: usize)
    ensures
        n == word_count(s@),
{
    let mut i: usize = 0;
    let mut n: usize = 0;
    while i < s.len()
        invariant
            i <= s@.len(),
            n == word_count_upto(s@, i as int),
            n <= i,
        decreases s@.len() - i,
    {
        let here = !is_whitespace(s[i]);
        if here && (i == 0 || is_whitespace(s[i - 1])) {
            n = n + 1;
        }
        i = i + 1;
    }
    n
}

/// The length of `s` without its trailing white space.
pub open spec fn trim_end_len(s: Seq<char>) -> nat
    decreases s.len(),
{
    if s.len() == 0 {
        0
    } else if is_ws(s.last()) {
        trim_end_len(s.drop_last())
    } else {
        s.len()
    }
}

/// `s` without its trailing white space, as `str::trim_end` gives it.
pub open spec fn trim_end(s: Seq<char>) -> Seq<char> {
    s.take(trim_end_len(s) as int)
}

/// The index of the first character at or after `i` that is not white space, or the length.
pub open spec fn trim_start_from(s: Seq<char>, i: int) -> int
    decreases s.len() - i,
{
    if i >= s.len() {
        s.len() as int
    } else if is_ws(s[i]) {
        trim_start_from(s, i + 1)
    } else {
        i
    }
}

/// `s` without its leading and trailing white space, as `str::trim` gives it.
pub open spec fn trim(s: Seq<char>) -> Seq<char> {
    let a = trim_start_from(s, 0);
    let b = trim_end_len(s) as int;
    if a < b {
        s.subrange(a, b)
    } else {
        Seq::empty()
    }
}

/// What `trim_end_len` cuts off is white space, and what it keeps ends without it.
pub proof fn lemma_trim_end_len(s: Seq<char>)
    ensures
        trim_end_len(s) <= s.len(),
        forall|j: int| trim_end_len(s) <= j < s.len() ==> is_ws(s[j]),
        trim_end_len(s) > 0 ==> !is_ws(s[trim_end_len(s) - 1]),
    decreases s.len(),
{
    if s.len() > 0 && is_ws(s.last()) {
        lemma_trim_end_len(s.drop_last());
        assert forall|j: int| trim_end_len(s) <= j < s.len() implies is_ws(s[j]) by {
            if j < s.len() - 1 {
                assert(s.drop_last()[j] == s[j]);
            }
        }
    }
}

/// What `trim_start_from` skips is white space, and where it stops there is none.
pub proof fn lemma_trim_start_from(s: Seq<char>, i: int)
    requires
        0 <= i <= s.len(),
    ensures
        i <= trim_start_from(s, i) <= s.len(),
        forall|j: int| i <= j < trim_start_from(s, i) ==> is_ws(s[j]),
        trim_start_from(s, i) < s.len() ==> !is_ws(s[trim_start_from(s, i)]),
    decreases s.len() - i,
{
    if i < s.len() && is_ws(s[i]) {
        lemma_trim_start_from(s, i + 1);
    }
}

/// The length of `s` without its trailing white space.
pub fn trim_end_length(s: &Vec<char>) -> (n: usize)
    ensures
        n == trim_end_len(s@),
{
    let mut n = s.len();
    proof {
        assert(s@.take(s@.len() as int) =~= s@);
    }
    while n > 0 && is_whitespace(s[n - 1])
        invariant
            n <= s@.len(),
            trim_end_len(s@) == trim_end_len(s@.take(n as int)),
        decreases n,
    {
        proof {
            assert(s@.take(n as int).drop_last() =~= s@.take(n - 1));
        }
        n = n - 1;
    }
    proof {
        assert(s@.take(s@.len() as int) =~= s@);
    }
    n
}

/// Where the text of `s` without surrounding white space starts and ends.
pub fn trim_bounds(s: &Vec<char>) -> (r: (usize, usize))
    ensures
        r.0 <= r.1 <= s@.len(),
        s@.subrange(r.0 as int, r.1 as int) == trim(s@),
{
    proof {
        assert(s@.take(s@.len() as int) =~= s@);
    }
    let mut a: usize = 0;
    while a < s.len() && is_whitespace(s[a])
        invariant
            a <= s@.len(),
            trim_start_from(s@, 0) == trim_start_from(s@, a as int),
        decreases s@.len() - a,
    {
        a = a + 1;
    }
    let b = trim_end_length(s);
    proof {
        lemma_trim_end_len(s@);
    }
    if a < b {
        (a, b)
    } else {
        (a, a)
    }
}

/// `s` begins with `p`.
pub open spec fn starts_with(s: Seq<char>, p: Seq<char>) -> bool {
    p.len() <= s.len() && s.take(p.len() as int) == p
}

/// Whether `s` begins with `p`.
pub fn chars_start_with(s: &Vec<char>, p: &str) -> (b: bool)
    ensures
        b == starts_with(s@, p@),
{
    let pc = chars_of(p);
    if pc.len() > s.len() {
        return false;
    }
    let mut i: usize = 0;
    while i < pc.len()
        invariant
            pc@ == p@,
            pc@.len() <= s@.len(),
            i <= pc@.len(),
            forall|j: int| 0 <= j < i ==> s@[j] == pc@[j],
        decreases pc@.len() - i,
    {
        if s[i] != pc[i] {
            assert(s@.take(pc@.len() as int)[i as int] != pc@[i as int]);
            return false;
        }
        i = i + 1;
    }
    assert(s@.take(pc@.len() as int) =~= pc@);
    true
}

/// Two hyphens stand at `i` and `i + 1`.
pub open spec fn hyphen_pair_at(s: Seq<char>, i: int) -> bool {
    0 <= i && i + 1 < s.len() && s[i] == '-' && s[i + 1] == '-'
}

/// `s` holds two hyphens in a row.
pub open spec fn has_double_hyphen(s: Seq<char>) -> bool {
    exists|i: int| #[trigger] hyphen_pair_at(s, i)
}

/// Whether `s` holds two hyphens in a row.
pub fn contains_double_hyphen(s: &str) -> (b: bool)
    ensures
        b == has_double_hyphen(s@),
{
    let cs = chars_of(s);
    let mut i: usize = 0;
    while i < cs.len() && i + 1 < cs.len()
        invariant
            i <= cs@.len(),
            cs@ == s@,
            forall|j: int| 0 <= j < i ==> !#[trigger] hyphen_pair_at(s@, j),
        decreases cs@.len() - i,
    {
        if cs[i] == '-' && cs[i + 1] == '-' {
            assert(hyphen_pair_at(s@, i as int));
            return true;
        }
        i = i + 1;
    }
    proof {
        assert forall|j: int| !#[trigger] hyphen_pair_at(s@, j) by {
            if 0 <= j < i {
            }
        }
    }
    false
}

/// A prefix one character longer is longer in UTF-8 by that character's width.
pub proof fn lemma_utf8_len_take(s: Seq<char>, k: int)
    requires
        0 <= k < s.len(),
    ensures
        utf8_len(s.take(k + 1)) == utf8_len(s.take(k)) + utf8_width(s[k]),
        utf8_len(s.take(k + 1)) > utf8_len(s.take(k)),
{
    assert(s.take(k + 1).drop_last() =~= s.take(k));
}

/// A longer prefix is longer in UTF-8.
pub proof fn lemma_utf8_len_monotone(s: Seq<char>, j: int, k: int)
    requires
        0 <= j < k <= s.len(),
    ensures
        utf8_len(s.take(j)) < utf8_len(s.take(k)),
    decreases k - j,
{
    lemma_utf8_len_take(s, k - 1);
    if j < k - 1 {
        lemma_utf8_len_monotone(s, j, k - 1);
    }
}

/// There is a character index of `s` that lies `b` bytes into its UTF-8 encoding.
pub open spec fn is_char_offset(s: Seq<char>, b: int) -> bool {
    exists|k: int| 0 <= k <= s.len() && utf8_len(s.take(k)) == b
}

/// The character index of `s` that lies `b` bytes into its UTF-8 encoding.
pub open spec fn char_offset(s: Seq<char>, b: int) -> int {
    choose|k: int| 0 <= k <= s.len() && utf8_len(s.take(k)) == b
}

/// The character index that lies `b` bytes into the UTF-8 encoding of `s`, if one does:
/// `None` where `b` falls inside a character or past the end.
pub fn char_index_at_byte(s: &Vec<char>, b: usize) -> (r: Option<usize>)
    ensures
        r is Some <==> is_char_offset(s@, b as int),
        r matches Some(k) ==> k == char_offset(s@, b as int) && k <= s@.len()
            && utf8_len(s@.take(k as int)) == b,
{
    let mut k: usize = 0;
    let mut acc: usize = 0;
    assert(s@.take(0) =~= Seq::<char>::empty());
    while k < s.len() && acc < b
        invariant
            k <= s@.len(),
            acc == utf8_len(s@.take(k as int)),
            acc <= b,
            forall|j: int| 0 <= j < k ==> utf8_len(#[trigger] s@.take(j)) < b,
        decreases s@.len() - k,
    {
        proof {
            lemma_utf8_len_take(s@, k as int);
        }
        let w = char_utf8_width(s[k]);
        if w > b - acc {
            proof {
                assert forall|j: int| 0 <= j <= s@.len() implies utf8_len(#[trigger] s@.take(j))
                    != b by {
                    if j > k {
                        if j > k + 1 {
                            lemma_utf8_len_monotone(s@, k + 1, j);
                        }
                    }
                }
            }
            return None;
        }
        acc = acc + w;
        k = k + 1;
    }
    if acc == b {
        proof {
            assert(utf8_len(s@.take(k as int)) == b);
            assert forall|j: int| 0 <= j <= s@.len() && utf8_len(#[trigger] s@.take(j)) == b
                implies j == k by {
                if j > k {
                    lemma_utf8_len_monotone(s@, k as int, j);
                }
            }
        }
        Some(k)
    } else {
        proof {
            assert forall|j: int| 0 <= j <= s@.len() implies utf8_len(#[trigger] s@.take(j))
                != b by {
                if j > k {
                    lemma_utf8_len_monotone(s@, k as int, j);
                }
            }
        }
        None
    }
}


/// The UTF-8 length of two texts joined is the sum of theirs.
pub proof fn lemma_utf8_len_concat(a: Seq<char>, b: Seq<char>)
    ensures
        utf8_len(a + b) == utf8_len(a) + utf8_len(b),
    decreases b.len(),
{
    if b.len() > 0 {
        lemma_utf8_len_concat(a, b.drop_last());
        assert((a + b).drop_last() =~= a + b.drop_last());
    } else {
        assert(a + b =~= a);
    }
}

/// A text takes at least one byte per character in UTF-8.
pub proof fn lemma_utf8_len_at_least_len(s: Seq<char>)
    ensures
        utf8_len(s) >= s.len(),
    decreases s.len(),
{
    if s.len() > 0 {
        lemma_utf8_len_at_least_len(s.drop_last());
    }
}

/// The UTF-8 length of a range of `s` is the difference of the lengths of its prefixes.
pub proof fn lemma_utf8_len_subrange(s: Seq<char>, a: int, b: int)
    requires
        0 <= a <= b <= s.len(),
    ensures
        utf8_len(s.take(b)) == utf8_len(s.take(a)) + utf8_len(s.subrange(a, b)),
{
    assert(s.take(b) =~= s.take(a) + s.subrange(a, b));
    lemma_utf8_len_concat(s.take(a), s.subrange(a, b));
}

/// `utf8_len` is the length of the encoding that `vstd` gives to `str::as_bytes`.
pub proof fn lemma_utf8_len_encode(s: Seq<char>)
    ensures
        utf8_len(s) == vstd::utf8::encode_utf8(s).len(),
    decreases s.len(),
{
    if s.len() > 0 {
        let c = s[0];
        vstd::utf8::char_is_scalar(c);
        lemma_utf8_len_encode(s.drop_first());
        assert(s =~= seq![c] + s.drop_first());
        lemma_utf8_len_concat(seq![c], s.drop_first());
        assert(seq![c].drop_last() =~= Seq::<char>::empty());
        assert(utf8_len(Seq::<char>::empty()) == 0);
        assert(seq![c].last() == c);
        assert(utf8_len(seq![c]) == utf8_width(c));
        assert(vstd::utf8::encode_scalar(c as u32).len() == utf8_width(c));
    }
}

/// The number of bytes of `s` in UTF-8, which fits in a `usize`.
pub fn utf8_length(s: &str) -> (n: usize)
    ensures
        n == utf8_len(s@),
{
    let n = s.as_bytes().len();
    proof {
        lemma_utf8_len_encode(s@);
    }
    n
}


/// Whether `a` and `b` hold the same text.
pub fn same_text(a: &str, b: &str) -> (r: bool)
    ensures
        r == (a@ == b@),
{
    let x = chars_of(a);
    let y = chars_of(b);
    if x.len() != y.len() {
        return false;
    }
    let mut i: usize = 0;
    while i < x.len()
        invariant
            x@ == a@,
            y@ == b@,
            x@.len() == y@.len(),
            i <= x@.len(),
            forall|j: int| 0 <= j < i ==> x@[j] == y@[j],
        decreases x@.len() - i,
    {
        if x[i] != y[i] {
            return false;
        }
        i = i + 1;
    }
    assert(x@ =~= y@);
    true
}

/// The number of characters of `s`.
pub fn char_count(s: &str) -> (n: usize)
    ensures
        n == s@.len(),
{
    chars_of(s).len()
}


/// The texts of some strings.
pub open spec fn texts(v: Seq<String>) -> Seq<Seq<char>> {
    v.map_values(|s: String| s@)
}


/// How many times `c` occurs in `s`.
pub open spec fn count_char(s: Seq<char>, c: char) -> nat
    decreases s.len(),
{
    if s.len() == 0 {
        0
    } else {
        count_char(s.drop_last(), c) + if s.last() == c {
            1nat
        } else {
            0nat
        }
    }
}

/// Counting a character over two texts joined adds the counts.
pub proof fn lemma_count_char_concat(a: Seq<char>, b: Seq<char>, c: char)
    ensures
        count_char(a + b, c) == count_char(a, c) + count_char(b, c),
    decreases b.len(),
{
    if b.len() == 0 {
        assert(a + b =~= a);
    } else {
        lemma_count_char_concat(a, b.drop_last(), c);
        assert((a + b).drop_last() =~= a + b.drop_last());
    }
}

/// A text that does not hold `c` counts none of it.
proof fn lemma_count_char_none(s: Seq<char>, c: char)
    requires
        forall|j: int| 0 <= j < s.len() ==> s[j] != c,
    ensures
        count_char(s, c) == 0,
    decreases s.len(),
{
    if s.len() > 0 {
        lemma_count_char_none(s.drop_last(), c);
    }
}

proof fn lemma_line_count_from(s: Seq<char>, i: int)
    requires
        0 <= i <= s.len(),
    ensures
        line_count_from(s, i) == count_char(s.skip(i), '\n') + if i < s.len() && s.last() != '\n' {
            1nat
        } else {
            0nat
        },
    decreases s.len() - i,
{
    if i == s.len() {
        assert(s.skip(i) =~= Seq::<char>::empty());
    } else {
        lemma_newline_from(s, i);
        let e = newline_from(s, i);
        lemma_count_char_none(s.subrange(i, e), '\n');
        if e < s.len() {
            lemma_line_count_from(s, e + 1);
            assert(s.skip(i) =~= s.subrange(i, e) + (seq!['\n'] + s.skip(e + 1)));
            lemma_count_char_concat(s.subrange(i, e), seq!['\n'] + s.skip(e + 1), '\n');
            lemma_count_char_concat(seq!['\n'], s.skip(e + 1), '\n');
            assert(seq!['\n'].drop_last() =~= Seq::<char>::empty());
            assert(seq!['\n'].last() == '\n');
            assert(count_char(Seq::<char>::empty(), '\n') == 0);
            assert(count_char(seq!['\n'], '\n') == 1);
            assert(next_line(s, i) == e + 1);
            if e + 1 == s.len() {
                assert(s.last() == s[e]);
            }
        } else {
            assert(s.skip(i) =~= s.subrange(i, e));
            assert(s.last() == s[s.len() - 1]);
            assert(s[s.len() - 1] != '\n');
            assert(next_line(s, i) == s.len());
            assert(line_count_from(s, s.len() as int) == 0);
        }
    }
}

/// `str::lines` yields one line for each line feed, blank lines included, and
/// one more for a last line that has no line feed.
pub proof fn lemma_line_count(s: Seq<char>)
    ensures
        line_count(s) == count_char(s, '\n') + if s.len() > 0 && s.last() != '\n' {
            1nat
        } else {
            0nat
        },
{
    lemma_line_count_from(s, 0);
    assert(s.skip(0) =~= s);
}

/// The words of a prefix are counted alike in any longer text.
proof fn lemma_word_count_prefix(a: Seq<char>, s: Seq<char>, k: int)
    requires
        0 <= k <= a.len(),
        a.len() <= s.len(),
        s.take(a.len() as int) == a,
    ensures
        word_count_upto(s, k) == word_count_upto(a, k),
    decreases k,
{
    if k > 0 {
        lemma_word_count_prefix(a, s, k - 1);
        assert(s[k - 1] == a[k - 1]);
        if k >= 2 {
            assert(s[k - 2] == a[k - 2]);
        }
    }
}

/// The words of `b` are counted alike after a white-space character.
proof fn lemma_word_count_after(a: Seq<char>, w: char, b: Seq<char>, m: int)
    requires
        is_ws(w),
        0 <= m <= b.len(),
    ensures
        word_count_upto(a + seq![w] + b, a.len() + 1 + m) == word_count_upto(
            a + seq![w] + b,
            a.len() + 1int,
        ) + word_count_upto(b, m),
    decreases m,
{
    let s = a + seq![w] + b;
    if m > 0 {
        lemma_word_count_after(a, w, b, m - 1);
        let i = a.len() + m;
        assert(s[i] == b[m - 1]);
        if m >= 2 {
            assert(s[i - 1] == b[m - 2]);
        } else {
            assert(s[i - 1] == w);
        }
    }
}

/// White space splits the words: the words of `a`, a white-space character and
/// `b` are those of `a` and those of `b`.
pub proof fn lemma_word_count_split(a: Seq<char>, w: char, b: Seq<char>)
    requires
        is_ws(w),
    ensures
        word_count(a + seq![w] + b) == word_count(a) + word_count(b),
{
    let s = a + seq![w] + b;
    assert(s.take(a.len() as int) =~= a);
    lemma_word_count_prefix(a, s, a.len() as int);
    assert(s[a.len() as int] == w);
    lemma_word_count_after(a, w, b, b.len() as int);
}

/// A non-empty text without white space is one word.
pub proof fn lemma_word_count_one(t: Seq<char>)
    requires
        t.len() > 0,
        forall|i: int| 0 <= i < t.len() ==> !is_ws(#[trigger] t[i]),
    ensures
        word_count(t) == 1,
{
    assert forall|k: int| 1 <= k <= t.len() implies word_count_upto(t, k) == 1 by {
        lemma_word_count_one_upto(t, k);
    }
}

proof fn lemma_word_count_one_upto(t: Seq<char>, k: int)
    requires
        1 <= k <= t.len(),
        forall|i: int| 0 <= i < t.len() ==> !is_ws(#[trigger] t[i]),
    ensures
        word_count_upto(t, k) == 1,
    decreases k,
{
    if k > 1 {
        lemma_word_count_one_upto(t, k - 1);
        assert(!is_ws(t[k - 2]));
    } else {
        assert(!is_ws(t[0]));
        assert(word_count_upto(t, 0) == 0);
        assert(starts_word(t, 0));
    }
}

/// A text of white space alone has no words.
pub proof fn lemma_word_count_blank(t: Seq<char>)
    requires
        forall|i: int| 0 <= i < t.len() ==> is_ws(#[trigger] t[i]),
    ensures
        word_count(t) == 0,
{
    lemma_word_count_blank_upto(t, t.len() as int);
}

proof fn lemma_word_count_blank_upto(t: Seq<char>, k: int)
    requires
        0 <= k <= t.len(),
        forall|i: int| 0 <= i < t.len() ==> is_ws(#[trigger] t[i]),
    ensures
        word_count_upto(t, k) == 0,
    decreases k,
{
    if k > 0 {
        lemma_word_count_blank_upto(t, k - 1);
        assert(is_ws(t[k - 1]));
    }
}
} // verus!
