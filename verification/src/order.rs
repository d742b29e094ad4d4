//! Lexicographic order on sequences, over an order on their items.
use vstd::prelude::*;

verus! {

/// `lt` is a strict total order: irreflexive, transitive, and relating any two distinct items.
pub open spec fn strict_total<T>(lt: spec_fn(T, T) -> bool) -> bool {
    &&& forall|x: T| !#[trigger] lt(x, x)
    &&& forall|x: T, y: T, z: T| #[trigger] lt(x, y) && #[trigger] lt(y, z) ==> lt(x, z)
    &&& forall|x: T, y: T| x != y ==> #[trigger] lt(x, y) || #[trigger] lt(y, x)
}

/// `a` comes strictly before `b` in the lexicographic order over `lt`: at the
/// first position where they differ `a`'s item is smaller, or `a` is a proper prefix of `b`.
pub open spec fn lex_lt<T>(a: Seq<T>, b: Seq<T>, lt: spec_fn(T, T) -> bool) -> bool
    decreases a.len(),
{
    if a.len() == 0 {
        b.len() > 0
    } else if b.len() == 0 {
        false
    } else if a[0] == b[0] {
        lex_lt(a.drop_first(), b.drop_first(), lt)
    } else {
        lt(a[0], b[0])
    }
}

/// Code points in numeric order, which is also the order of their UTF-8 encodings.
pub open spec fn char_lt(x: char, y: char) -> bool {
    (x as u32) < (y as u32)
}

/// Strings in the order of their code points (for UTF-8 text, the order of their bytes).
pub open spec fn text_lt(a: Seq<char>, b: Seq<char>) -> bool {
    lex_lt(a, b, |x: char, y: char| char_lt(x, y))
}

/// The order of characters is a strict total order.
pub proof fn lemma_char_lt_strict_total()
    ensures
        strict_total(|x: char, y: char| char_lt(x, y)),
{
    assert forall|x: char, y: char| x != y implies char_lt(x, y) || char_lt(y, x) by {
        if (x as u32) == (y as u32) {
            vstd::utf8::char_u32_cast(x, x as u32);
            vstd::utf8::char_u32_cast(y, y as u32);
        }
    }
}

/// No sequence comes before itself in a lexicographic order.
pub proof fn lemma_lex_irreflexive<T>(a: Seq<T>, lt: spec_fn(T, T) -> bool)
    requires
        strict_total(lt),
    ensures
        !lex_lt(a, a, lt),
    decreases a.len(),
{
    if a.len() > 0 {
        lemma_lex_irreflexive(a.drop_first(), lt);
    }
}

/// A lexicographic order over a strict total order is transitive.
pub proof fn lemma_lex_transitive<T>(a: Seq<T>, b: Seq<T>, c: Seq<T>, lt: spec_fn(T, T) -> bool)
    requires
        strict_total(lt),
        lex_lt(a, b, lt),
        lex_lt(b, c, lt),
    ensures
        lex_lt(a, c, lt),
    decreases a.len(),
{
    if a.len() > 0 && b.len() > 0 && c.len() > 0 {
        if a[0] == b[0] && b[0] == c[0] {
            lemma_lex_transitive(a.drop_first(), b.drop_first(), c.drop_first(), lt);
        } else if a[0] == b[0] {
        } else if b[0] == c[0] {
        } else {
            assert(lt(a[0], b[0]) && lt(b[0], c[0]));
            if a[0] == c[0] {
                assert(lt(a[0], a[0]));
            }
        }
    }
}

/// Of two different sequences, one comes before the other.
pub proof fn lemma_lex_total<T>(a: Seq<T>, b: Seq<T>, lt: spec_fn(T, T) -> bool)
    requires
        strict_total(lt),
        a != b,
    ensures
        lex_lt(a, b, lt) || lex_lt(b, a, lt),
    decreases a.len(),
{
    if a.len() > 0 && b.len() > 0 {
        if a[0] == b[0] {
            if a.drop_first() == b.drop_first() {
                assert(a =~= seq![a[0]] + a.drop_first());
                assert(b =~= seq![b[0]] + b.drop_first());
            }
            lemma_lex_total(a.drop_first(), b.drop_first(), lt);
        } else {
            assert(lt(a[0], b[0]) || lt(b[0], a[0]));
        }
    } else if a.len() == 0 && b.len() == 0 {
        assert(a =~= b);
    }
}

/// Where `a` comes before `b`, `b` does not come before `a`.
pub proof fn lemma_lex_asymmetric<T>(a: Seq<T>, b: Seq<T>, lt: spec_fn(T, T) -> bool)
    requires
        strict_total(lt),
        lex_lt(a, b, lt),
    ensures
        !lex_lt(b, a, lt),
{
    if lex_lt(b, a, lt) {
        lemma_lex_transitive(a, b, a, lt);
        lemma_lex_irreflexive(a, lt);
    }
}

/// Dropping a common first item keeps the lexicographic order.
pub proof fn lemma_lex_skip<T>(a: Seq<T>, b: Seq<T>, i: int, lt: spec_fn(T, T) -> bool)
    requires
        0 <= i < a.len(),
        i < b.len(),
        a[i] == b[i],
    ensures
        lex_lt(a.skip(i), b.skip(i), lt) == lex_lt(a.skip(i + 1), b.skip(i + 1), lt),
{
    assert(a.skip(i).drop_first() =~= a.skip(i + 1));
    assert(b.skip(i).drop_first() =~= b.skip(i + 1));
}

/// Whether `a` comes strictly before `b` in code point order.
pub fn chars_lt(a: &Vec<char>, b: &Vec<char>) -> (r: bool)
    ensures
        r == text_lt(a@, b@),
{
    let mut i: usize = 0;
    assert(a@.skip(0) =~= a@);
    assert(b@.skip(0) =~= b@);
    while i < a.len() && i < b.len() && a[i] == b[i]
        invariant
            i <= a@.len(),
            i <= b@.len(),
            text_lt(a@, b@) == text_lt(a@.skip(i as int), b@.skip(i as int)),
        decreases a@.len() - i,
    {
        proof {
            lemma_lex_skip(a@, b@, i as int, |x: char, y: char| char_lt(x, y));
        }
        i = i + 1;
    }
    if i == a.len() {
        i < b.len()
    } else if i == b.len() {
        false
    } else {
        (a[i] as u32) < (b[i] as u32)
    }
}


/// `q` is strictly increasing under `lt`.
pub open spec fn ascending<T>(q: Seq<T>, lt: spec_fn(T, T) -> bool) -> bool {
    forall|i: int, j: int| 0 <= i < j < q.len() ==> lt(#[trigger] q[i], #[trigger] q[j])
}

/// In a strictly increasing sequence, the tail holds what the whole holds but its first item.
proof fn lemma_ascending_tail<T>(q: Seq<T>, lt: spec_fn(T, T) -> bool, y: T)
    requires
        strict_total(lt),
        ascending(q, lt),
        q.len() > 0,
    ensures
        q.drop_first().contains(y) <==> (q.contains(y) && y != q[0]),
{
    let d = q.drop_first();
    if d.contains(y) {
        let a = choose|a: int| 0 <= a < d.len() && d[a] == y;
        assert(q[a + 1] == y);
        assert(lt(q[0], q[a + 1]));
        if y == q[0] {
            assert(lt(q[0], q[0]));
        }
    }
    if q.contains(y) && y != q[0] {
        let a = choose|a: int| 0 <= a < q.len() && q[a] == y;
        assert(d[a - 1] == y);
    }
}

/// Two strictly increasing sequences that hold the same items are equal.
pub proof fn lemma_ascending_unique<T>(q1: Seq<T>, q2: Seq<T>, lt: spec_fn(T, T) -> bool)
    requires
        strict_total(lt),
        ascending(q1, lt),
        ascending(q2, lt),
        forall|x: T| q1.contains(x) <==> q2.contains(x),
    ensures
        q1 == q2,
    decreases q1.len(),
{
    if q1.len() == 0 {
        if q2.len() > 0 {
            assert(q2.contains(q2[0]));
        }
        assert(q1 =~= q2);
    } else {
        assert(q1.contains(q1[0]));
        let x = q1[0];
        let j = choose|j: int| 0 <= j < q2.len() && q2[j] == x;
        assert(q2.contains(q2[0]));
        let k = choose|k: int| 0 <= k < q1.len() && q1[k] == q2[0];
        if j > 0 {
            assert(lt(q2[0], q2[j]));
            if k > 0 {
                assert(lt(q1[0], q1[k]));
                assert(lt(x, x));
            } else {
                assert(lt(x, x));
            }
        }
        let d1 = q1.drop_first();
        let d2 = q2.drop_first();
        assert forall|y: T| d1.contains(y) <==> d2.contains(y) by {
            lemma_ascending_tail(q1, lt, y);
            lemma_ascending_tail(q2, lt, y);
        }
        assert forall|a: int, b: int| 0 <= a < b < d1.len() implies lt(#[trigger] d1[a], #[trigger] d1[b]) by {
            assert(d1[a] == q1[a + 1] && d1[b] == q1[b + 1]);
        }
        assert forall|a: int, b: int| 0 <= a < b < d2.len() implies lt(#[trigger] d2[a], #[trigger] d2[b]) by {
            assert(d2[a] == q2[a + 1] && d2[b] == q2[b + 1]);
        }
        lemma_ascending_unique(d1, d2, lt);
        assert(q1 =~= seq![x] + d1);
        assert(q2 =~= seq![x] + d2);
    }
}

} // verus!
