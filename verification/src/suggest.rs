//! The suggestion engine: a pruned depth-first walk of the trie carrying
//! Levenshtein dynamic-programming rows, followed by ranking.

use vstd::prelude::*;

use crate::distance::{
    best_prefix, lemma_char_value_eq, lemma_extension_bound, lemma_lev_le, lemma_word_lt_trans,
    lemma_word_lt_trichotomy, lev, min3, sub_cost, word_lt,
};
use crate::trie::Node;

verus! {

/// The first Levenshtein row: transforming the empty prefix into each prefix
/// of the query.
pub(crate) fn init_row(q: &Vec<char>) -> (r: Vec<u128>)
    ensures
        r@.len() == q@.len() + 1,
        forall|j: int| 0 <= j <= q@.len() ==> #[trigger] r@[j] == lev(Seq::<char>::empty(), q@.take(j)),
{
    let mut r: Vec<u128> = Vec::new();
    r.push(0);
    proof {
        assert(q@.take(0).len() == 0);
    }
    let mut t: usize = 0;
    while t < q.len()
        invariant
            t <= q@.len(),
            r@.len() == t + 1,
            forall|m: int| 0 <= m <= t ==> #[trigger] r@[m] == lev(Seq::<char>::empty(), q@.take(m)),
        decreases q@.len() - t,
    {
        r.push(t as u128 + 1);
        proof {
            assert(q@.take(t + 1).len() == t + 1);
            assert(lev(Seq::<char>::empty(), q@.take(t + 1)) == t + 1);
        }
        t = t + 1;
    }
    r
}

/// The Levenshtein row of the prefix `p` extended by one symbol `c`, computed
/// from the row of `p` by the classic recurrence.
#[verifier::loop_isolation(false)]
fn next_row(row: &Vec<u128>, q: &Vec<char>, c: char, Ghost(p): Ghost<Seq<char>>) -> (nr: Vec<u128>)
    requires
        p.len() <= u64::MAX,
        row@.len() == q@.len() + 1,
        forall|j: int| 0 <= j <= q@.len() ==> #[trigger] row@[j] == lev(p, q@.take(j)),
    ensures
        nr@.len() == q@.len() + 1,
        forall|j: int| 0 <= j <= q@.len() ==> #[trigger] nr@[j] == lev(p.push(c), q@.take(j)),
{
    let ghost a = p.push(c);
    let mut nr: Vec<u128> = Vec::new();
    proof {
        assert(q@.take(0) =~= Seq::<char>::empty());
        assert(row@[0] == p.len());
        assert(p.push(c).len() == p.len() + 1);
        assert(p.push(c)[p.len() as int] == c);
        assert(p.push(c).drop_last() =~= p);
        assert(a.last() == c);
        assert(lev(a, q@.take(0)) == a.len());
    }
    nr.push(row[0] + 1);
    let mut t: usize = 0;
    while t < q.len()
        invariant
            t <= q@.len(),
            nr@.len() == t + 1,
            p.len() <= u64::MAX,
            row@.len() == q@.len() + 1,
            forall|m: int| 0 <= m <= q@.len() ==> #[trigger] row@[m] == lev(p, q@.take(m)),
            forall|m: int| 0 <= m <= t ==> #[trigger] nr@[m] == lev(a, q@.take(m)),
        decreases q@.len() - t,
    {
        let j: usize = t + 1;
        let qc = q[t];
        proof {
            lemma_lev_le(p, q@.take(j as int));
            lemma_lev_le(p, q@.take(t as int));
            lemma_lev_le(a, q@.take(t as int));
            assert(q@.take(j as int).len() == j as int);
            assert(q@.take(t as int).len() == t as int);
            assert(row@[j as int] == lev(p, q@.take(j as int)));
            assert(row@[t as int] == lev(p, q@.take(t as int)));
            assert(nr@[t as int] == lev(a, q@.take(t as int)));
        }
        let cost: u128 = if c == qc {
            0
        } else {
            1
        };
        let del = row[j] + 1;
        let ins = nr[t] + 1;
        let sub = row[t] + cost;
        let m = if del <= ins && del <= sub {
            del
        } else if ins <= sub {
            ins
        } else {
            sub
        };
        nr.push(m);
        proof {
            let b = q@.take(j as int);
            assert(b.len() == j as int);
            assert(a.len() == p.len() + 1);
            assert(a.drop_last() =~= p);
            assert(a.last() == c);
            assert(b.drop_last() =~= q@.take(t as int));
            assert(b.last() == q@[t as int]);
            assert(q@[t as int] == qc);
            assert(cost as nat == sub_cost(a.last(), b.last()));
            assert(lev(a, b) == min3(
                lev(p, b) + 1,
                lev(a, q@.take(t as int)) + 1,
                lev(p, q@.take(t as int)) + sub_cost(a.last(), b.last()),
            ));
            assert(m as nat == lev(a, b));
            assert(nr@[j as int] == lev(a, q@.take(j as int)));
        }
        t = t + 1;
    }
    nr
}

/// The least value in a Levenshtein row: the distance from the prefix to the
/// closest prefix of the query, the bound that justifies pruning.
fn row_min(row: &Vec<u128>, q: &Vec<char>, Ghost(p): Ghost<Seq<char>>) -> (m: u128)
    requires
        row@.len() == q@.len() + 1,
        forall|j: int| 0 <= j <= q@.len() ==> #[trigger] row@[j] == lev(p, q@.take(j)),
    ensures
        m as nat == best_prefix(p, q@, q@.len() as int),
{
    let mut m = row[0];
    let mut t: usize = 0;
    while t < q.len()
        invariant
            t <= q@.len(),
            row@.len() == q@.len() + 1,
            forall|j: int| 0 <= j <= q@.len() ==> #[trigger] row@[j] == lev(p, q@.take(j)),
            m as nat == best_prefix(p, q@, t as int),
        decreases q@.len() - t,
    {
        let v = row[t + 1];
        if v < m {
            m = v;
        }
        t = t + 1;
    }
    m
}

/// A fresh copy of a word.
pub(crate) fn clone_word(v: &Vec<char>) -> (r: Vec<char>)
    ensures
        r@ == v@,
{
    let mut r: Vec<char> = Vec::new();
    let mut i: usize = 0;
    while i < v.len()
        invariant
            i <= v@.len(),
            r@.len() == i,
            forall|t: int| 0 <= t < i ==> #[trigger] r@[t] == v@[t],
        decreases v@.len() - i,
    {
        r.push(v[i]);
        i = i + 1;
    }
    proof {
        assert(r@ =~= v@);
    }
    r
}

/// Strict lexicographic comparison of two words.
fn word_less(a: &Vec<char>, b: &Vec<char>) -> (r: bool)
    ensures
        r == word_lt(a@, b@),
{
    let mut i: usize = 0;
    proof {
        assert(a@.skip(0) =~= a@);
        assert(b@.skip(0) =~= b@);
    }
    while i < a.len() && i < b.len()
        invariant
            i <= a@.len(),
            i <= b@.len(),
            word_lt(a@, b@) == word_lt(a@.skip(i as int), b@.skip(i as int)),
        decreases a@.len() - i,
    {
        let ca = a[i];
        let cb = b[i];
        let ghost sa = a@.skip(i as int);
        let ghost sb = b@.skip(i as int);
        proof {
            assert(sa.len() == a@.len() - i && sb.len() == b@.len() - i);
            assert(sa[0] == a@[i as int] && sb[0] == b@[i as int]);
            assert(sa.skip(1) =~= a@.skip(i + 1));
            assert(sb.skip(1) =~= b@.skip(i + 1));
        }
        if (ca as u32) < (cb as u32) {
            proof {
                assert(word_lt(sa, sb));
            }
            return true;
        }
        if ca != cb {
            proof {
                lemma_char_value_eq(ca, cb);
                assert(!word_lt(sa, sb));
            }
            return false;
        }
        i = i + 1;
    }
    proof {
        let sa = a@.skip(i as int);
        let sb = b@.skip(i as int);
        assert(sa.len() == a@.len() - i && sb.len() == b@.len() - i);
        assert(sa.len() == 0 || sb.len() == 0);
    }
    i < b.len()
}

/// A recorded candidate: a word of the subtree at the end of the prefix `p`,
/// within the bound, paired with its exact distance to the query.
pub(crate) open spec fn sound_cand(
    p: Seq<char>,
    node: Node,
    q: Seq<char>,
    d_max: u64,
    e: (u64, Vec<char>),
) -> bool {
    &&& e.1@.len() >= p.len()
    &&& e.1@.take(p.len() as int) == p
    &&& node.has_word(e.1@.skip(p.len() as int))
    &&& e.0 as nat == lev(e.1@, q)
    &&& e.0 <= d_max
}

/// `w` occurs as a recorded word at or after position `from`.
pub(crate) open spec fn found_word(s: Seq<(u64, Vec<char>)>, from: int, w: Seq<char>) -> bool {
    exists|t: int| from <= t < s.len() && (#[trigger] s[t]).1@ == w
}

/// Pruned depth-first collection: records every word of the subtree below
/// `node` (reached along the prefix in `path`) whose distance to the query is
/// within `d_max`, each exactly once, with its exact distance. Subtrees whose
/// best achievable row value exceeds the bound are skipped soundly.
#[verifier::loop_isolation(false)]
pub(crate) fn collect_rec(
    node: &Node,
    q: &Vec<char>,
    d_max: u64,
    row: &Vec<u128>,
    path: &mut Vec<char>,
    out: &mut Vec<(u64, Vec<char>)>,
)
    requires
        node.wf(),
        row@.len() == q@.len() + 1,
        forall|j: int| 0 <= j <= q@.len() ==> #[trigger] row@[j] == lev(old(path)@, q@.take(j)),
        old(path)@.len() + node.atom_count() <= u64::MAX,
    ensures
        final(path)@ == old(path)@,
        final(out)@.len() >= old(out)@.len(),
        forall|t: int| 0 <= t < old(out)@.len() ==> #[trigger] final(out)@[t] == old(out)@[t],
        forall|t: int| old(out)@.len() <= t < final(out)@.len()
            ==> sound_cand(old(path)@, *node, q@, d_max, #[trigger] final(out)@[t]),
        forall|w: Seq<char>| (#[trigger] node.has_word(w)) && lev(old(path)@ + w, q@) <= d_max
            ==> found_word(final(out)@, old(out)@.len() as int, old(path)@ + w),
        forall|t1: int, t2: int| old(out)@.len() <= t1 < t2 < final(out)@.len()
            ==> (#[trigger] final(out)@[t1]).1@ != (#[trigger] final(out)@[t2]).1@,
    decreases *node,
{
    let ghost p = path@;
    let ghost out0 = out@;
    let ghost cs = node.children@;
    let ghost empty_word = Seq::<char>::empty();
    proof {
        assert(p + empty_word =~= p);
        assert(q@.take(q@.len() as int) =~= q@);
        assert(p.take(p.len() as int) =~= p);
        assert(p.skip(p.len() as int) =~= empty_word);
    }
    if node.terminal {
        let d = row[q.len()];
        proof {
            assert(d as nat == lev(p, q@));
        }
        if d <= d_max as u128 {
            let w = clone_word(path);
            out.push((d as u64, w));
            proof {
                assert(out@[out0.len() as int].1@ == p);
                assert(sound_cand(p, *node, q@, d_max, out@[out0.len() as int]));
            }
        }
    }
    let n = node.children.len();
    let mut i: usize = 0;
    while i < n
        invariant
            path@ == p,
            out@.len() >= out0.len(),
            forall|t: int| 0 <= t < out0.len() ==> #[trigger] out@[t] == out0[t],
            forall|t: int| out0.len() <= t < out@.len()
                ==> sound_cand(p, *node, q@, d_max, #[trigger] out@[t]),
            forall|t: int| out0.len() <= t < out@.len()
                ==> (#[trigger] out@[t]).1@ == p || out@[t].1@.len() > p.len(),
            forall|t: int| out0.len() <= t < out@.len() && (#[trigger] out@[t]).1@.len() > p.len()
                ==> exists|m: int| 0 <= m < i && out@[t].1@[p.len() as int] == (#[trigger] cs[m]).0,
            forall|w: Seq<char>| (#[trigger] node.has_word(w)) && lev(p + w, q@) <= d_max
                && (w == empty_word
                    || (w.len() > 0 && exists|m: int| 0 <= m < i && w[0] == (#[trigger] cs[m]).0))
                ==> found_word(out@, out0.len() as int, p + w),
            forall|t1: int, t2: int| out0.len() <= t1 < t2 < out@.len()
                ==> (#[trigger] out@[t1]).1@ != (#[trigger] out@[t2]).1@,
        decreases n - i,
    {
        let c = node.children[i].0;
        let child = &node.children[i].1;
        let ghost pc = p.push(c);
        proof {
            assert(cs[i as int].1.wf());
            crate::trie::lemma_child_atoms(*node, i as int);
            assert(pc.len() == p.len() + 1);
            assert(pc[p.len() as int] == c);
            assert(pc.take(p.len() as int) =~= p);
        }
        let nr = next_row(row, q, c, Ghost(p));
        let m = row_min(&nr, q, Ghost(pc));
        if m <= d_max as u128 {
            let ghost before = out@;
            path.push(c);
            proof {
                assert(path@ == pc);
            }
            collect_rec(child, q, d_max, &nr, path, out);
            let popped = path.pop();
            proof {
                assert(path@ =~= p);
                // New entries of the child stand for words through this edge.
                assert forall|t: int| before.len() <= t < out@.len()
                    implies sound_cand(p, *node, q@, d_max, out@[t]) && out@[t].1@.len() > p.len()
                        && out@[t].1@[p.len() as int] == c by {
                    assert(sound_cand(pc, cs[i as int].1, q@, d_max, out@[t]));
                    let v = out@[t].1@;
                    assert(v.len() >= p.len() + 1);
                    assert(v.take(p.len() as int + 1) == pc);
                    assert(v.take(p.len() as int + 1)[p.len() as int] == v[p.len() as int]);
                    assert(v[p.len() as int] == c);
                    assert(v.take(p.len() as int) =~= pc.take(p.len() as int));
                    let ws = v.skip(p.len() as int);
                    assert(ws.len() == v.len() - p.len());
                    assert(ws[0] == v[p.len() as int]);
                    assert(ws.skip(1) =~= v.skip(p.len() as int + 1));
                    crate::trie::lemma_has_word_child(*node, i as int, ws);
                    assert(node.has_word(ws));
                }
                // Words through this edge are now found.
                assert forall|w: Seq<char>| node.has_word(w) && lev(p + w, q@) <= d_max
                    && w.len() > 0 && w[0] == cs[i as int].0
                    implies found_word(out@, before.len() as int, p + w) by {
                    crate::trie::lemma_has_word_child(*node, i as int, w);
                    assert(cs[i as int].1.has_word(w.skip(1)));
                    assert(pc + w.skip(1) =~= p + w);
                    assert(lev(pc + w.skip(1), q@) <= d_max);
                    assert(found_word(out@, before.len() as int, pc + w.skip(1)));
                }
                // Earlier entries are untouched, so earlier findings persist.
                assert forall|w: Seq<char>| found_word(before, out0.len() as int, w)
                    implies found_word(out@, out0.len() as int, w) by {
                    let t = choose|t: int| out0.len() <= t < before.len() && (#[trigger] before[t]).1@ == w;
                    assert(out@[t] == before[t]);
                }
            }
        } else {
            proof {
                // Pruned: no word through this edge can meet the bound.
                assert forall|w: Seq<char>| node.has_word(w) && w.len() > 0 && w[0] == cs[i as int].0
                    implies !(lev(p + w, q@) <= d_max) by {
                    crate::trie::lemma_has_word_child(*node, i as int, w);
                    assert(cs[i as int].1.has_word(w.skip(1)));
                    lemma_extension_bound(pc, w.skip(1), q@);
                    assert(pc + w.skip(1) =~= p + w);
                    assert(best_prefix(pc, q@, q@.len() as int) > d_max);
                }
            }
        }
        i = i + 1;
    }
    proof {
        assert forall|w: Seq<char>| node.has_word(w) && lev(p + w, q@) <= d_max
            implies found_word(out@, out0.len() as int, p + w) by {
            if w.len() == 0 {
                assert(w =~= empty_word);
            } else {
                let m = choose|m: int|
                    #![trigger cs[m]]
                    0 <= m < cs.len() && cs[m].0 == w[0] && cs[m].1.has_word(w.skip(1));
                assert(0 <= m < n && w[0] == cs[m].0);
            }
        }
    }
}

/// Ranking of candidates: ascending distance, ties broken lexicographically.
pub open spec fn rank_lt(a: (u64, Seq<char>), b: (u64, Seq<char>)) -> bool {
    a.0 < b.0 || (a.0 == b.0 && word_lt(a.1, b.1))
}

/// The view of a candidate entry.
pub(crate) open spec fn entry_view(e: (u64, Vec<char>)) -> (u64, Seq<char>) {
    (e.0, e.1@)
}

/// Some entry of `s` carries the word `w`.
pub(crate) open spec fn has_entry_word(s: Seq<(u64, Vec<char>)>, w: Seq<char>) -> bool {
    exists|t: int| 0 <= t < s.len() && (#[trigger] s[t]).1@ == w
}

/// `e` occurs, by value, among the entries of `s`.
pub(crate) open spec fn entry_of(s: Seq<(u64, Vec<char>)>, e: (u64, Vec<char>)) -> bool {
    exists|t: int| 0 <= t < s.len() && (#[trigger] s[t]).0 == e.0 && s[t].1@ == e.1@
}

/// On entries with distinct words the ranking is total.
proof fn lemma_rank_total(a: (u64, Seq<char>), b: (u64, Seq<char>))
    requires
        a.1 != b.1,
    ensures
        rank_lt(a, b) <==> !rank_lt(b, a),
{
    lemma_word_lt_trichotomy(a.1, b.1);
}

/// The ranking is transitive.
proof fn lemma_rank_trans(a: (u64, Seq<char>), b: (u64, Seq<char>), c: (u64, Seq<char>))
    requires
        rank_lt(a, b),
        rank_lt(b, c),
    ensures
        rank_lt(a, c),
{
    if a.0 == b.0 && b.0 == c.0 {
        lemma_word_lt_trans(a.1, b.1, c.1);
    }
}

/// Strict ranking comparison of two candidate entries.
fn rank_less(a: &(u64, Vec<char>), b: &(u64, Vec<char>)) -> (r: bool)
    ensures
        r == rank_lt(entry_view(*a), entry_view(*b)),
{
    if a.0 < b.0 {
        true
    } else if a.0 == b.0 {
        word_less(&a.1, &b.1)
    } else {
        false
    }
}

/// Repeatedly extracts the best-ranked remaining candidate, until `k` are
/// chosen or none remain: the chosen entries are the `k` best, in order.
#[verifier::loop_isolation(false)]
#[verifier::rlimit(100)]
#[verifier::spinoff_prover]
pub(crate) fn select_ranked(cands: Vec<(u64, Vec<char>)>, k: usize) -> (r: Vec<(u64, Vec<char>)>)
    requires
        forall|t1: int, t2: int| 0 <= t1 < t2 < cands@.len()
            ==> (#[trigger] cands@[t1]).1@ != (#[trigger] cands@[t2]).1@,
    ensures
        r@.len() == (if k as int <= cands@.len() { k as int } else { cands@.len() as int }),
        forall|t: int| 0 <= t < r@.len() ==> entry_of(cands@, #[trigger] r@[t]),
        forall|t1: int, t2: int| 0 <= t1 < t2 < r@.len()
            ==> rank_lt(entry_view(#[trigger] r@[t1]), entry_view(#[trigger] r@[t2])),
        r@.len() == k as int || (forall|w: Seq<char>| has_entry_word(cands@, w)
            ==> has_entry_word(r@, w)),
        forall|t: int, j: int| 0 <= t < r@.len() && 0 <= j < cands@.len()
            && !has_entry_word(r@, (#[trigger] cands@[j]).1@)
            ==> rank_lt(entry_view(#[trigger] r@[t]), entry_view(cands@[j])),
{
    let mut rem = cands;
    let mut res: Vec<(u64, Vec<char>)> = Vec::new();
    while res.len() < k && rem.len() > 0
        invariant
            res@.len() <= k,
            res@.len() + rem@.len() == cands@.len(),
            forall|t: int| 0 <= t < res@.len() ==> entry_of(cands@, #[trigger] res@[t]),
            forall|t: int| 0 <= t < rem@.len() ==> entry_of(cands@, #[trigger] rem@[t]),
            forall|j: int| 0 <= j < cands@.len()
                ==> has_entry_word(res@, (#[trigger] cands@[j]).1@)
                    || has_entry_word(rem@, cands@[j].1@),
            forall|t1: int, t2: int| 0 <= t1 < t2 < res@.len()
                ==> (#[trigger] res@[t1]).1@ != (#[trigger] res@[t2]).1@,
            forall|t1: int, t2: int| 0 <= t1 < t2 < rem@.len()
                ==> (#[trigger] rem@[t1]).1@ != (#[trigger] rem@[t2]).1@,
            forall|t1: int, t2: int| 0 <= t1 < res@.len() && 0 <= t2 < rem@.len()
                ==> (#[trigger] res@[t1]).1@ != (#[trigger] rem@[t2]).1@,
            forall|t1: int, t2: int| 0 <= t1 < t2 < res@.len()
                ==> rank_lt(entry_view(#[trigger] res@[t1]), entry_view(#[trigger] res@[t2])),
            forall|t1: int, t2: int| 0 <= t1 < res@.len() && 0 <= t2 < rem@.len()
                ==> rank_lt(entry_view(#[trigger] res@[t1]), entry_view(#[trigger] rem@[t2])),
        decreases rem@.len(),
    {
        let ghost rem0 = rem@;
        let mut bi: usize = 0;
        let mut mi: usize = 1;
        while mi < rem.len()
            invariant
                bi < mi <= rem@.len(),
                rem@ == rem0,
                forall|t: int| 0 <= t < mi && t != bi
                    ==> rank_lt(entry_view(rem@[bi as int]), entry_view(#[trigger] rem@[t])),
            decreases rem@.len() - mi,
        {
            if rank_less(&rem[mi], &rem[bi]) {
                proof {
                    assert forall|t: int| 0 <= t < mi + 1 && t != mi as int
                        implies rank_lt(entry_view(rem@[mi as int]), entry_view(rem@[t])) by {
                        if t != bi {
                            lemma_rank_trans(
                                entry_view(rem@[mi as int]),
                                entry_view(rem@[bi as int]),
                                entry_view(rem@[t]),
                            );
                        }
                    }
                }
                bi = mi;
            } else {
                proof {
                    assert(rem@[bi as int].1@ != rem@[mi as int].1@);
                    lemma_rank_total(entry_view(rem@[bi as int]), entry_view(rem@[mi as int]));
                }
            }
            mi = mi + 1;
        }
        let ghost res0 = res@;
        let e = rem.swap_remove(bi);
        res.push(e);
        proof {
            let u = rem@;
            let ghost last = rem0[rem0.len() - 1];
            // Every old entry but the chosen one keeps a place; nothing new.
            assert forall|t: int| 0 <= t < u.len()
                implies exists|j: int| 0 <= j < rem0.len() && j != bi as int
                    && (#[trigger] u[t]) == rem0[j] by {
                if t == bi as int {
                    assert(u[t] == rem0[rem0.len() - 1]);
                } else {
                    assert(u[t] == rem0[t]);
                }
            }
            assert forall|j: int| 0 <= j < rem0.len() && j != bi as int
                implies exists|t: int| 0 <= t < u.len() && (#[trigger] rem0[j]) == u[t] by {
                if j == rem0.len() - 1 {
                    assert(rem0[j] == u[bi as int]);
                } else {
                    assert(rem0[j] == u[j]);
                }
            }
            // Each candidate word keeps a home: in the grown result, or still
            // in the remainder.
            assert forall|j: int| 0 <= j < cands@.len()
                implies has_entry_word(res@, (#[trigger] cands@[j]).1@)
                    || has_entry_word(rem@, cands@[j].1@) by {
                let w = cands@[j].1@;
                if has_entry_word(res0, w) {
                    let t = choose|t: int| 0 <= t < res0.len() && (#[trigger] res0[t]).1@ == w;
                    assert(res@[t] == res0[t]);
                } else {
                    assert(has_entry_word(rem0, w));
                    let t = choose|t: int| 0 <= t < rem0.len() && (#[trigger] rem0[t]).1@ == w;
                    if t == bi as int {
                        assert(res@[res0.len() as int] == e);
                        assert(e.1@ == w);
                    } else if t == rem0.len() - 1 {
                        assert(rem@[bi as int] == rem0[t]);
                    } else {
                        assert(rem@[t] == rem0[t]);
                    }
                }
            }
        }
    }
    proof {
        if res@.len() < k {
            assert(rem@.len() == 0);
            assert forall|w: Seq<char>| has_entry_word(cands@, w)
                implies has_entry_word(res@, w) by {
                let j = choose|j: int| 0 <= j < cands@.len() && (#[trigger] cands@[j]).1@ == w;
                assert(has_entry_word(res@, cands@[j].1@) || has_entry_word(rem@, cands@[j].1@));
            }
        }
        // An unchosen candidate word still sits in `rem`, where every chosen
        // entry outranks it; equal words among candidates carry equal ranks.
        assert forall|t: int, j: int| 0 <= t < res@.len() && 0 <= j < cands@.len()
            && !has_entry_word(res@, (#[trigger] cands@[j]).1@)
            implies rank_lt(entry_view(#[trigger] res@[t]), entry_view(cands@[j])) by {
            assert(has_entry_word(rem@, cands@[j].1@));
            let t2 = choose|t2: int| 0 <= t2 < rem@.len() && (#[trigger] rem@[t2]).1@ == cands@[j].1@;
            assert(entry_of(cands@, rem@[t2]));
            let j2 = choose|j2: int| 0 <= j2 < cands@.len() && (#[trigger] cands@[j2]).0 == rem@[t2].0
                && cands@[j2].1@ == rem@[t2].1@;
            if j2 != j {
                assert(cands@[j2].1@ != cands@[j].1@);
            }
            assert(rem@[t2].0 == cands@[j].0);
            assert(rank_lt(entry_view(res@[t]), entry_view(rem@[t2])));
        }
    }
    res
}

} // verus!
