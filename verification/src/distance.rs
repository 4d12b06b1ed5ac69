//! Levenshtein edit distance: the specification, the bounds used by the
//! suggestion search, and the lexicographic order on words used for ranking.

use vstd::prelude::*;

verus! {

/// Cost of aligning two symbols: zero iff they are equal.
pub open spec fn sub_cost(a: char, b: char) -> nat {
    if a == b {
        0
    } else {
        1
    }
}

/// Least of three values.
pub open spec fn min3(a: nat, b: nat, c: nat) -> nat {
    if a <= b && a <= c {
        a
    } else if b <= c {
        b
    } else {
        c
    }
}

/// Levenshtein edit distance: the least number of single-symbol insertions,
/// deletions and substitutions turning `a` into `b`.
pub open spec fn lev(a: Seq<char>, b: Seq<char>) -> nat
    decreases a.len() + b.len(),
{
    if a.len() == 0 {
        b.len()
    } else if b.len() == 0 {
        a.len()
    } else {
        min3(
            lev(a.drop_last(), b) + 1,
            lev(a, b.drop_last()) + 1,
            lev(a.drop_last(), b.drop_last()) + sub_cost(a.last(), b.last()),
        )
    }
}

/// The distance never exceeds the combined length.
pub proof fn lemma_lev_le(a: Seq<char>, b: Seq<char>)
    ensures
        lev(a, b) <= a.len() + b.len(),
    decreases a.len() + b.len(),
{
    if a.len() > 0 && b.len() > 0 {
        lemma_lev_le(a.drop_last(), b);
    }
}

/// The least distance from `p` to any of the first `j + 1` prefixes of `q`.
pub open spec fn best_prefix(p: Seq<char>, q: Seq<char>, j: int) -> nat
    decreases j,
{
    if j <= 0 {
        lev(p, q.take(0))
    } else if lev(p, q.take(j)) <= best_prefix(p, q, j - 1) {
        lev(p, q.take(j))
    } else {
        best_prefix(p, q, j - 1)
    }
}

/// `best_prefix` is a lower bound for every prefix it ranges over.
pub proof fn lemma_best_prefix_le(p: Seq<char>, q: Seq<char>, j: int, t: int)
    requires
        0 <= t <= j,
    ensures
        best_prefix(p, q, j) <= lev(p, q.take(t)),
    decreases j,
{
    if t < j {
        lemma_best_prefix_le(p, q, j - 1, t);
    }
}

/// Shortening `q` at the end does not change the minimum over its untouched
/// prefixes.
proof fn lemma_best_prefix_drop(p: Seq<char>, q: Seq<char>, j: int)
    requires
        q.len() > 0,
        j <= q.len() - 1,
    ensures
        best_prefix(p, q.drop_last(), j) == best_prefix(p, q, j),
    decreases j,
{
    assert(q.drop_last().take(if j <= 0 { 0int } else { j }) =~= q.take(
        if j <= 0 {
            0int
        } else {
            j
        },
    ));
    if j > 0 {
        lemma_best_prefix_drop(p, q, j - 1);
    }
}

/// The pruning bound: however a word extends the prefix `p`, its distance to
/// `q` is at least the least distance from `p` to some prefix of `q`.
pub proof fn lemma_extension_bound(p: Seq<char>, s: Seq<char>, q: Seq<char>)
    ensures
        best_prefix(p, q, q.len() as int) <= lev(p + s, q),
    decreases s.len(), q.len(),
{
    let a = p + s;
    if s.len() == 0 {
        assert(a =~= p);
        assert(q.take(q.len() as int) =~= q);
        lemma_best_prefix_le(p, q, q.len() as int, q.len() as int);
    } else if q.len() == 0 {
        assert(q.take(0) =~= q);
        lemma_best_prefix_le(p, q, 0, 0);
        assert(lev(p, q) == p.len());
        assert(lev(a, q) == a.len());
    } else {
        assert(a.len() == p.len() + s.len());
        assert(a.drop_last() =~= p + s.drop_last());
        lemma_extension_bound(p, s.drop_last(), q);
        lemma_extension_bound(p, s, q.drop_last());
        lemma_extension_bound(p, s.drop_last(), q.drop_last());
        lemma_best_prefix_drop(p, q, q.len() - 1);
        assert(best_prefix(p, q, q.len() as int) <= best_prefix(p, q, q.len() - 1));
        assert(lev(a, q) == min3(
            lev(a.drop_last(), q) + 1,
            lev(a, q.drop_last()) + 1,
            lev(a.drop_last(), q.drop_last()) + sub_cost(a.last(), q.last()),
        ));
    }
}

/// Strict lexicographic order on words, by symbol value.
pub open spec fn word_lt(a: Seq<char>, b: Seq<char>) -> bool
    decreases a.len(),
{
    if b.len() == 0 {
        false
    } else if a.len() == 0 {
        true
    } else if (a[0] as u32) < (b[0] as u32) {
        true
    } else if a[0] == b[0] {
        word_lt(a.skip(1), b.skip(1))
    } else {
        false
    }
}

/// Two nonempty sequences with the same head and the same tail are equal.
pub proof fn lemma_cons_eq_seq(w: Seq<char>, r: Seq<char>)
    requires
        w.len() > 0,
        r.len() > 0,
        w[0] == r[0],
        w.skip(1) == r.skip(1),
    ensures
        w == r,
{
    assert(w.skip(1).len() == w.len() - 1);
    assert(r.skip(1).len() == r.len() - 1);
    assert(w.len() == r.len());
    assert forall|t: int| 0 <= t < r.len() implies w[t] == r[t] by {
        if t > 0 {
            assert(w.skip(1)[t - 1] == w[t]);
            assert(r.skip(1)[t - 1] == r[t]);
        }
    }
    assert(w =~= r);
}

/// Symbols are equal exactly when their scalar values are.
pub proof fn lemma_char_value_eq(c1: char, c2: char)
    ensures
        (c1 == c2) <==> (c1 as u32 == c2 as u32),
{
}

/// Exactly one of `word_lt(a, b)`, `word_lt(b, a)`, `a == b` holds.
pub proof fn lemma_word_lt_trichotomy(a: Seq<char>, b: Seq<char>)
    ensures
        a != b ==> (word_lt(a, b) <==> !word_lt(b, a)),
        !word_lt(a, a),
    decreases a.len(),
{
    if a.len() > 0 {
        lemma_word_lt_trichotomy(a.skip(1), a.skip(1));
        assert(!word_lt(a, a));
    }
    if a != b {
        if a.len() == 0 {
            if b.len() == 0 {
                assert(a =~= b);
            }
            assert(word_lt(a, b) && !word_lt(b, a));
        } else if b.len() == 0 {
            assert(!word_lt(a, b) && word_lt(b, a));
        } else if a[0] == b[0] {
            lemma_word_lt_trichotomy(a.skip(1), b.skip(1));
            if a.skip(1) == b.skip(1) {
                lemma_cons_eq_seq(a, b);
                assert(false);
            }
            assert(word_lt(a, b) == word_lt(a.skip(1), b.skip(1)));
            assert(word_lt(b, a) == word_lt(b.skip(1), a.skip(1)));
        } else {
            lemma_char_value_eq(a[0], b[0]);
            assert((a[0] as u32) != (b[0] as u32));
            if (a[0] as u32) < (b[0] as u32) {
                assert(word_lt(a, b) && !word_lt(b, a));
            } else {
                assert((b[0] as u32) < (a[0] as u32));
                assert(!word_lt(a, b) && word_lt(b, a));
            }
        }
    }
}

/// The order on words is transitive.
pub proof fn lemma_word_lt_trans(a: Seq<char>, b: Seq<char>, c: Seq<char>)
    requires
        word_lt(a, b),
        word_lt(b, c),
    ensures
        word_lt(a, c),
    decreases a.len(),
{
    if a.len() > 0 && b.len() > 0 && c.len() > 0 {
        if a[0] == b[0] && b[0] == c[0] {
            lemma_word_lt_trans(a.skip(1), b.skip(1), c.skip(1));
        }
    }
}

} // verus!
