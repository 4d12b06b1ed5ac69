//! The node store and the trie engine: insertion, exact containment, the two
//! aggregate counters, and the suggestion facade.

use vstd::prelude::*;

use crate::distance::{lemma_cons_eq_seq, lev, word_lt};
use crate::suggest::{
    clone_word, collect_rec, entry_of, entry_view, found_word, has_entry_word, init_row, rank_lt,
    select_ranked, sound_cand,
};

verus! {

/// One position along some inserted sequence. A node owns its children
/// exclusively; each outgoing edge is labeled by one symbol, and the labels of
/// a node's edges are pairwise distinct.
pub struct Node {
    pub(crate) children: Vec<(char, Node)>,
    pub(crate) terminal: bool,
}

impl Node {
    /// Well-formedness: edge labels are pairwise distinct, recursively.
    pub(crate) open spec fn wf(self) -> bool
        decreases self,
    {
        &&& (forall|i: int, j: int|
            0 <= i < j < self.children@.len() ==> self.children@[i].0 != self.children@[j].0)
        &&& (forall|i: int| #![trigger self.children@[i]]
            0 <= i < self.children@.len() ==> self.children@[i].1.wf())
    }

    /// The word model: `s` is a word of the subtree rooted here iff walking
    /// its symbols edge by edge ends at a terminal node.
    pub(crate) open spec fn has_word(self, s: Seq<char>) -> bool
        decreases self,
    {
        if s.len() == 0 {
            self.terminal
        } else {
            exists|i: int|
                #![trigger self.children@[i]]
                0 <= i < self.children@.len() && self.children@[i].0 == s[0]
                    && self.children@[i].1.has_word(s.skip(1))
        }
    }

    /// Number of terminal nodes in this subtree, the node itself included.
    pub(crate) open spec fn entry_count(self) -> nat
        decreases self, 0int,
    {
        (if self.terminal { 1nat } else { 0nat }) + sum_entries(self.children@, self.children@.len() as int)
    }

    /// Number of nodes strictly below this node.
    pub(crate) open spec fn atom_count(self) -> nat
        decreases self, 0int,
    {
        sum_atoms(self.children@, self.children@.len() as int)
    }
}

/// Sum of `entry_count` over the first `n` children.
pub(crate) open spec fn sum_entries(cs: Seq<(char, Node)>, n: int) -> nat
    decreases cs, n,
{
    if n <= 0 || n > cs.len() {
        0
    } else {
        sum_entries(cs, n - 1) + cs[n - 1].1.entry_count()
    }
}

/// Sum of `1 + atom_count` over the first `n` children.
pub(crate) open spec fn sum_atoms(cs: Seq<(char, Node)>, n: int) -> nat
    decreases cs, n,
{
    if n <= 0 || n > cs.len() {
        0
    } else {
        sum_atoms(cs, n - 1) + 1 + cs[n - 1].1.atom_count()
    }
}

/// How many leading symbols of `s` can be matched walking edge by edge from
/// `n`; the nodes along that walk already exist and are not re-created by an
/// insertion of `s`.
pub(crate) open spec fn traced(n: Node, s: Seq<char>) -> nat
    decreases s.len(),
{
    if s.len() == 0 {
        0
    } else if exists|i: int|
        #![trigger n.children@[i]]
        0 <= i < n.children@.len() && n.children@[i].0 == s[0] {
        let i = choose|i: int|
            #![trigger n.children@[i]]
            0 <= i < n.children@.len() && n.children@[i].0 == s[0];
        1 + traced(n.children@[i].1, s.skip(1))
    } else {
        0
    }
}

/// A word can be present only if its whole path is traceable.
proof fn lemma_traced_le(n: Node, s: Seq<char>)
    ensures
        traced(n, s) <= s.len(),
    decreases s.len(),
{
    if s.len() > 0 {
        if exists|i: int|
            #![trigger n.children@[i]]
            0 <= i < n.children@.len() && n.children@[i].0 == s[0] {
            let i = choose|i: int|
                #![trigger n.children@[i]]
                0 <= i < n.children@.len() && n.children@[i].0 == s[0];
            lemma_traced_le(n.children@[i].1, s.skip(1));
        }
    }
}

/// A word that walks through the unique child labeled with its first symbol.
pub(crate) proof fn lemma_has_word_child(n: Node, j: int, w: Seq<char>)
    requires
        n.wf(),
        0 <= j < n.children@.len(),
        w.len() > 0,
        n.children@[j].0 == w[0],
    ensures
        n.has_word(w) == n.children@[j].1.has_word(w.skip(1)),
{
    if n.has_word(w) {
        let i = choose|i: int|
            #![trigger n.children@[i]]
            0 <= i < n.children@.len() && n.children@[i].0 == w[0]
                && n.children@[i].1.has_word(w.skip(1));
        assert(i == j);
    }
    if n.children@[j].1.has_word(w.skip(1)) {
        assert(0 <= j < n.children@.len() && n.children@[j].0 == w[0]
            && n.children@[j].1.has_word(w.skip(1)));
        assert(n.has_word(w));
    }
}

/// A word whose first symbol labels no edge is absent.
pub(crate) proof fn lemma_has_word_no_child(n: Node, w: Seq<char>)
    requires
        w.len() > 0,
        forall|m: int| #![trigger n.children@[m]]
            0 <= m < n.children@.len() ==> n.children@[m].0 != w[0],
    ensures
        !n.has_word(w),
{
}

/// `sum_entries` and `sum_atoms` over two child sequences that agree
/// everywhere below `n` except possibly at index `j`.
proof fn lemma_sums_update(cs1: Seq<(char, Node)>, cs2: Seq<(char, Node)>, j: int, n: int)
    requires
        0 <= j < cs1.len(),
        cs2.len() == cs1.len(),
        forall|m: int| #![trigger cs2[m]] 0 <= m < cs1.len() && m != j ==> cs2[m] == cs1[m],
        0 <= n <= cs1.len(),
    ensures
        n <= j ==> sum_entries(cs2, n) == sum_entries(cs1, n)
            && sum_atoms(cs2, n) == sum_atoms(cs1, n),
        n > j ==> sum_entries(cs2, n) + cs1[j].1.entry_count()
                == sum_entries(cs1, n) + cs2[j].1.entry_count()
            && sum_atoms(cs2, n) + cs1[j].1.atom_count()
                == sum_atoms(cs1, n) + cs2[j].1.atom_count(),
    decreases n,
{
    if n > 0 {
        lemma_sums_update(cs1, cs2, j, n - 1);
    }
}

/// The sums ignore entries at or beyond `n`, so pushing a child leaves them.
proof fn lemma_sums_push(cs: Seq<(char, Node)>, x: (char, Node), n: int)
    requires
        0 <= n <= cs.len(),
    ensures
        sum_entries(cs.push(x), n) == sum_entries(cs, n),
        sum_atoms(cs.push(x), n) == sum_atoms(cs, n),
    decreases n,
{
    if n > 0 {
        lemma_sums_push(cs, x, n - 1);
        assert(cs.push(x)[n - 1] == cs[n - 1]);
    }
}

/// Every terminal node is a node, so entries can exceed atoms by at most the
/// root itself.
pub(crate) proof fn lemma_entries_le_atoms(n: Node)
    ensures
        n.entry_count() <= n.atom_count() + 1,
    decreases n, 0int,
{
    lemma_sums_le(n.children@, n.children@.len() as int);
}

proof fn lemma_sums_le(cs: Seq<(char, Node)>, n: int)
    ensures
        sum_entries(cs, n) <= sum_atoms(cs, n),
    decreases cs, n,
{
    if 0 < n <= cs.len() {
        lemma_sums_le(cs, n - 1);
        lemma_entries_le_atoms(cs[n - 1].1);
    }
}

/// Prefix sums of `sum_atoms` only grow.
proof fn lemma_sum_atoms_mono(cs: Seq<(char, Node)>, m: int, n: int)
    requires
        0 <= m <= n <= cs.len(),
    ensures
        sum_atoms(cs, m) <= sum_atoms(cs, n),
    decreases n,
{
    if m < n {
        lemma_sum_atoms_mono(cs, m, n - 1);
    }
}

/// Each child subtree, with its own edge, fits within the parent's count.
pub(crate) proof fn lemma_child_atoms(n: Node, j: int)
    requires
        0 <= j < n.children@.len(),
    ensures
        1 + n.children@[j].1.atom_count() <= n.atom_count(),
{
    lemma_sum_atoms_mono(n.children@, j + 1, n.children@.len() as int);
    assert(sum_atoms(n.children@, j + 1)
        == sum_atoms(n.children@, j) + 1 + n.children@[j].1.atom_count());
}

/// Index of the unique child edge labeled `c`, if one exists.
fn find_child(node: &Node, c: char) -> (r: Option<usize>)
    ensures
        match r {
            Some(j) => j < node.children@.len() && node.children@[j as int].0 == c,
            None => forall|m: int| 0 <= m < node.children@.len() ==> node.children@[m].0 != c,
        },
{
    let mut j: usize = 0;
    let n = node.children.len();
    while j < n
        invariant
            j <= n,
            n == node.children@.len(),
            forall|m: int| 0 <= m < j ==> node.children@[m].0 != c,
        decreases n - j,
    {
        if node.children[j].0 == c {
            return Some(j);
        }
        j = j + 1;
    }
    None
}

/// A fresh chain of nodes holding exactly the suffix `s[i..]`.
fn make_chain(s: &Vec<char>, i: usize) -> (n: Node)
    requires
        i <= s@.len(),
    ensures
        n.wf(),
        forall|w: Seq<char>| #[trigger] n.has_word(w) <==> w == s@.skip(i as int),
        n.entry_count() == 1,
        n.atom_count() == s@.len() - i,
    decreases s@.len() - i,
{
    let ghost rest = s@.skip(i as int);
    if i == s.len() {
        let n = Node { children: Vec::new(), terminal: true };
        proof {
            assert(rest =~= Seq::<char>::empty());
            assert forall|w: Seq<char>| #[trigger] n.has_word(w) <==> w == rest by {
                if w.len() == 0 {
                    assert(w =~= rest);
                }
            }
            assert(n.entry_count() == 1);
            assert(n.atom_count() == 0);
        }
        n
    } else {
        let c = s[i];
        let child = make_chain(s, i + 1);
        let mut children: Vec<(char, Node)> = Vec::new();
        children.push((c, child));
        let n = Node { children, terminal: false };
        proof {
            let cs = n.children@;
            assert(cs.len() == 1 && cs[0].0 == c && cs[0].1 == child);
            assert(n.wf());
            assert(rest.len() == s@.len() - i && rest[0] == c);
            assert(rest.skip(1) =~= s@.skip(i as int + 1));
            assert forall|w: Seq<char>| #[trigger] n.has_word(w) <==> w == rest by {
                if w.len() == 0 {
                    assert(!n.has_word(w));
                    assert(w != rest);
                } else if w[0] != c {
                    lemma_has_word_no_child(n, w);
                    assert(w != rest);
                } else {
                    lemma_has_word_child(n, 0, w);
                    assert(n.has_word(w) == (w.skip(1) == s@.skip(i as int + 1)));
                    if w.skip(1) == s@.skip(i as int + 1) {
                        lemma_cons_eq_seq(w, rest);
                    }
                    if w == rest {
                        assert(w.skip(1) =~= rest.skip(1));
                    }
                }
            }
            assert(sum_entries(cs, 1) == sum_entries(cs, 0) + child.entry_count());
            assert(n.entry_count() == 1);
            assert(sum_atoms(cs, 1) == sum_atoms(cs, 0) + 1 + child.atom_count());
            assert(n.atom_count() == s@.len() - i);
        }
        n
    }
}

/// Insert the suffix `s[i..]` below `node`, returning the new subtree, the
/// number of nodes created, and whether a new entry was recorded.
fn insert_rec(node: Node, s: &Vec<char>, i: usize) -> (res: (Node, usize, bool))
    requires
        node.wf(),
        i <= s@.len(),
    ensures
        res.0.wf(),
        forall|w: Seq<char>| #[trigger] res.0.has_word(w)
            <==> (node.has_word(w) || w == s@.skip(i as int)),
        res.0.entry_count() == node.entry_count()
            + (if node.has_word(s@.skip(i as int)) { 0int } else { 1int }),
        res.2 == !node.has_word(s@.skip(i as int)),
        res.0.atom_count() == node.atom_count() + res.1,
        res.1 == s@.len() - i - traced(node, s@.skip(i as int)),
    decreases s@.len() - i,
{
    let ghost rest = s@.skip(i as int);
    if i == s.len() {
        proof {
            assert(rest =~= Seq::<char>::empty());
        }
        if node.terminal {
            proof {
                assert forall|w: Seq<char>| #[trigger] node.has_word(w)
                    <==> (node.has_word(w) || w == rest) by {
                    if w == rest {
                        assert(node.has_word(w));
                    }
                }
            }
            (node, 0, false)
        } else {
            let n2 = Node { children: node.children, terminal: true };
            proof {
                assert(n2.children@ == node.children@);
                assert(n2.wf());
                assert forall|w: Seq<char>| #[trigger] n2.has_word(w)
                    <==> (node.has_word(w) || w == rest) by {
                    if w.len() == 0 {
                        assert(w =~= rest);
                        assert(n2.has_word(w));
                    } else {
                        assert(w != rest);
                        assert(n2.has_word(w) == node.has_word(w));
                    }
                }
                assert(!node.has_word(rest));
                assert(n2.entry_count() == node.entry_count() + 1);
                assert(n2.atom_count() == node.atom_count());
            }
            (n2, 0, true)
        }
    } else {
        let c = s[i];
        proof {
            assert(rest.len() == s@.len() - i && rest[0] == c);
            assert(rest.skip(1) =~= s@.skip(i as int + 1));
        }
        match find_child(&node, c) {
            Some(j) => {
                let mut node = node;
                let ghost n1 = node;
                let pair = node.children.remove(j);
                let (child2, created, added) = insert_rec(pair.1, s, i + 1);
                node.children.insert(j, (pair.0, child2));
                proof {
                    let cs1 = n1.children@;
                    let cs2 = node.children@;
                    let child = pair.1;
                    assert(cs2 =~= cs1.update(j as int, (c, child2)));
                    assert(node.terminal == n1.terminal);
                    // Well-formedness: labels unchanged, children still wf.
                    assert forall|m: int| #![trigger cs2[m]]
                        0 <= m < cs2.len() ==> cs2[m].0 == cs1[m].0 && cs2[m].1.wf() by {
                        if 0 <= m < cs2.len() && m != j {
                            assert(cs1[m].1.wf());
                        }
                    }
                    assert(node.wf());
                    // The word set gains exactly the inserted suffix.
                    assert forall|w: Seq<char>| #[trigger] node.has_word(w)
                        <==> (n1.has_word(w) || w == rest) by {
                        if w.len() == 0 {
                            assert(node.has_word(w) == n1.has_word(w));
                            assert(w != rest);
                        } else if w[0] != c {
                            assert forall|m: int| #![trigger cs2[m]]
                                0 <= m < cs2.len() ==> (cs2[m].0 == w[0] ==> cs2[m] == cs1[m]) by {}
                            if node.has_word(w) {
                                let m = choose|m: int|
                                    #![trigger cs2[m]]
                                    0 <= m < cs2.len() && cs2[m].0 == w[0]
                                        && cs2[m].1.has_word(w.skip(1));
                                assert(cs1[m] == cs2[m]);
                                assert(n1.has_word(w));
                            }
                            if n1.has_word(w) {
                                let m = choose|m: int|
                                    #![trigger cs1[m]]
                                    0 <= m < cs1.len() && cs1[m].0 == w[0]
                                        && cs1[m].1.has_word(w.skip(1));
                                assert(m != j);
                                assert(cs2[m] == cs1[m]);
                                assert(node.has_word(w));
                            }
                            assert(w != rest);
                        } else {
                            lemma_has_word_child(node, j as int, w);
                            lemma_has_word_child(n1, j as int, w);
                            assert(node.has_word(w) == child2.has_word(w.skip(1)));
                            assert(n1.has_word(w) == child.has_word(w.skip(1)));
                            assert(child2.has_word(w.skip(1))
                                <==> (child.has_word(w.skip(1)) || w.skip(1) == rest.skip(1)));
                            if w.skip(1) == rest.skip(1) && w[0] == c {
                                lemma_cons_eq_seq(w, rest);
                            }
                            if w == rest {
                                assert(w.skip(1) =~= rest.skip(1));
                            }
                        }
                    }
                    // Entries: the delta comes from the recursive call.
                    lemma_has_word_child(n1, j as int, rest);
                    assert(n1.has_word(rest) == child.has_word(rest.skip(1)));
                    lemma_sums_update(cs1, cs2, j as int, cs1.len() as int);
                    assert(node.entry_count() == n1.entry_count()
                        + (if n1.has_word(rest) { 0int } else { 1int }));
                    assert(node.atom_count() == n1.atom_count() + created);
                    // Traced prefix: the choose picks the unique matching edge.
                    let m = choose|m: int|
                        #![trigger n1.children@[m]]
                        0 <= m < n1.children@.len() && n1.children@[m].0 == rest[0];
                    assert(0 <= j < cs1.len() && cs1[j as int].0 == rest[0]);
                    assert(m == j);
                    assert(traced(n1, rest) == 1 + traced(child, rest.skip(1)));
                }
                (node, created, added)
            }
            None => {
                let mut node = node;
                let ghost n1 = node;
                let child = make_chain(s, i + 1);
                let created = s.len() - i;
                node.children.push((c, child));
                proof {
                    let cs1 = n1.children@;
                    let cs2 = node.children@;
                    assert(cs2 == cs1.push((c, child)));
                    assert(cs2.len() == cs1.len() + 1);
                    assert forall|m: int| #![trigger cs2[m]]
                        0 <= m < cs1.len() ==> cs2[m] == cs1[m] by {}
                    assert(cs2[cs1.len() as int] == (c, child));
                    assert(node.wf());
                    assert forall|w: Seq<char>| #[trigger] node.has_word(w)
                        <==> (n1.has_word(w) || w == rest) by {
                        if w.len() == 0 {
                            assert(node.has_word(w) == n1.has_word(w));
                            assert(w != rest);
                        } else if w[0] != c {
                            if node.has_word(w) {
                                let m = choose|m: int|
                                    #![trigger cs2[m]]
                                    0 <= m < cs2.len() && cs2[m].0 == w[0]
                                        && cs2[m].1.has_word(w.skip(1));
                                assert(m < cs1.len());
                                assert(n1.has_word(w));
                            }
                            if n1.has_word(w) {
                                let m = choose|m: int|
                                    #![trigger cs1[m]]
                                    0 <= m < cs1.len() && cs1[m].0 == w[0]
                                        && cs1[m].1.has_word(w.skip(1));
                                assert(cs2[m] == cs1[m]);
                                assert(node.has_word(w));
                            }
                            assert(w != rest);
                        } else {
                            lemma_has_word_child(node, cs1.len() as int, w);
                            lemma_has_word_no_child(n1, w);
                            assert(node.has_word(w) == child.has_word(w.skip(1)));
                            assert(child.has_word(w.skip(1))
                                <==> w.skip(1) == s@.skip(i as int + 1));
                            if w.skip(1) == rest.skip(1) && w[0] == c {
                                lemma_cons_eq_seq(w, rest);
                            }
                            if w == rest {
                                assert(w.skip(1) =~= rest.skip(1));
                            }
                        }
                    }
                    lemma_has_word_no_child(n1, rest);
                    lemma_sums_push(cs1, (c, child), cs1.len() as int);
                    assert(sum_entries(cs2, cs2.len() as int)
                        == sum_entries(cs2, cs1.len() as int) + child.entry_count());
                    assert(node.entry_count() == n1.entry_count() + 1);
                    assert(sum_atoms(cs2, cs2.len() as int)
                        == sum_atoms(cs2, cs1.len() as int) + 1 + child.atom_count());
                    assert(node.atom_count() == n1.atom_count() + created);
                    assert(traced(n1, rest) == 0);
                }
                (node, created, true)
            }
        }
    }
}

/// The dictionary engine: one root node standing for the empty sequence, and
/// the two incrementally maintained counters.
pub struct Trie {
    root: Node,
    entries: u64,
    atoms: u64,
}

impl Trie {
    /// Well-formedness: the node store is well formed and both counters agree
    /// with the model counts of the tree.
    pub closed spec fn wf(self) -> bool {
        &&& self.root.wf()
        &&& self.entries as nat == self.root.entry_count()
        &&& self.atoms as nat == self.root.atom_count()
    }

    /// The word model of the whole trie.
    pub closed spec fn contains_spec(self, w: Seq<char>) -> bool {
        self.root.has_word(w)
    }

    /// Number of distinct sequences ever inserted.
    pub closed spec fn count_spec(self) -> nat {
        self.root.entry_count()
    }

    /// Number of nodes materialized beyond the root.
    pub closed spec fn atoms_spec(self) -> nat {
        self.root.atom_count()
    }

    /// A fresh engine: empty word set, both counters zero.
    pub fn new() -> (t: Trie)
        ensures
            t.wf(),
            t.count_spec() == 0,
            t.atoms_spec() == 0,
            forall|w: Seq<char>| !t.contains_spec(w),
            forall|w: Seq<char>| #[trigger] t.matched_spec(w) == 0,
    {
        let t = Trie { root: Node { children: Vec::new(), terminal: false }, entries: 0, atoms: 0 };
        proof {
            assert(t.root.children@.len() == 0);
            assert(t.root.entry_count() == 0);
            assert(t.root.atom_count() == 0);
            assert forall|w: Seq<char>| !t.contains_spec(w) by {
                assert(!t.root.has_word(w));
            }
            assert forall|w: Seq<char>| #[trigger] t.matched_spec(w) == 0 by {
                assert(traced(t.root, w) == 0);
            }
        }
        t
    }

    /// Exact membership: walks one edge per symbol; a missing edge or a
    /// non-terminal final node means absence.
    pub fn contains(&self, s: &Vec<char>) -> (r: bool)
        requires
            self.wf(),
        ensures
            r == self.contains_spec(s@),
    {
        let mut node: &Node = &self.root;
        let mut i: usize = 0;
        proof {
            assert(s@.skip(0) =~= s@);
        }
        while i < s.len()
            invariant
                i <= s@.len(),
                node.wf(),
                self.contains_spec(s@) == node.has_word(s@.skip(i as int)),
            decreases s@.len() - i,
        {
            let c = s[i];
            let ghost rest = s@.skip(i as int);
            proof {
                assert(rest.len() == s@.len() - i);
                assert(rest[0] == s@[i as int]);
            }
            match find_child(node, c) {
                Some(j) => {
                    proof {
                        let cs = node.children@;
                        assert(rest.skip(1) =~= s@.skip(i as int + 1));
                        assert(cs[j as int].1.wf());
                        if cs[j as int].1.has_word(rest.skip(1)) {
                            assert(0 <= j < cs.len() && cs[j as int].0 == rest[0]
                                && cs[j as int].1.has_word(rest.skip(1)));
                            assert(node.has_word(rest));
                        }
                        if node.has_word(rest) {
                            let w = choose|w: int|
                                0 <= w < cs.len() && cs[w].0 == rest[0]
                                    && #[trigger] cs[w].1.has_word(rest.skip(1));
                            assert(cs[w].0 == c && cs[j as int].0 == c);
                            assert(w == j);
                            assert(cs[j as int].1.has_word(rest.skip(1)));
                        }
                    }
                    node = &node.children[j].1;
                }
                None => {
                    proof {
                        assert forall|w: int|
                            !(0 <= w < node.children@.len() && node.children@[w].0 == rest[0]
                                && #[trigger] node.children@[w].1.has_word(rest.skip(1))) by {
                            if 0 <= w < node.children@.len() {
                                assert(node.children@[w].0 != c);
                            }
                        }
                        assert(!node.has_word(rest));
                    }
                    return false;
                }
            }
            i = i + 1;
        }
        proof {
            assert(s@.skip(i as int) =~= Seq::<char>::empty());
        }
        node.terminal
    }

    /// The length of the longest prefix of `s` whose path already exists in
    /// the tree; inserting `s` creates one node per symbol beyond it.
    pub closed spec fn matched_spec(self, s: Seq<char>) -> nat {
        traced(self.root, s)
    }

    /// Insertion: walks the path of `s`, creating the missing nodes, and marks
    /// its end terminal. Total for every finite sequence; the bound on the
    /// counter only keeps the `u64` node counter from overflowing.
    pub fn insert(&mut self, s: &Vec<char>)
        requires
            old(self).wf(),
            old(self).atoms_spec() + s@.len() < u64::MAX,
        ensures
            final(self).wf(),
            inserted(*old(self), *final(self), s@),
    {
        let mut root = Node { children: Vec::new(), terminal: false };
        core::mem::swap(&mut root, &mut self.root);
        let ghost r0 = root;
        proof {
            assert(s@.skip(0) =~= s@);
            lemma_traced_le(r0, s@);
        }
        let (root2, created, added) = insert_rec(root, s, 0);
        proof {
            lemma_sums_le(root2.children@, root2.children@.len() as int);
            if !r0.terminal {
                lemma_sums_le(r0.children@, r0.children@.len() as int);
            }
        }
        self.root = root2;
        self.atoms = self.atoms + created as u64;
        if added {
            self.entries = self.entries + 1;
        }
    }

    /// Up to `k` stored words closest to `q` under edit distance, accepting
    /// only candidates within `d_max`, ranked by ascending distance with
    /// lexicographic tie-breaking.
    #[verifier::loop_isolation(false)]
    #[verifier::rlimit(60)]
    pub fn alternatives_within(&self, q: &Vec<char>, k: usize, d_max: u64) -> (r: Vec<Vec<char>>)
        requires
            self.wf(),
        ensures
            suggestions_ok(*self, q@, k as int, d_max, r@),
    {
        let mut r: Vec<Vec<char>> = Vec::new();
        if k == 0 {
            return r;
        }
        let ghost ew = Seq::<char>::empty();
        let row = init_row(q);
        let mut path: Vec<char> = Vec::new();
        let mut cands: Vec<(u64, Vec<char>)> = Vec::new();
        proof {
            assert(path@ =~= ew);
        }
        collect_rec(&self.root, q, d_max, &row, &mut path, &mut cands);
        proof {
            // Candidates are exactly the stored words within the bound.
            assert forall|t: int| 0 <= t < cands@.len()
                implies self.contains_spec((#[trigger] cands@[t]).1@)
                    && cands@[t].0 as nat == lev(cands@[t].1@, q@) && cands@[t].0 <= d_max by {
                assert(sound_cand(ew, self.root, q@, d_max, cands@[t]));
                let v = cands@[t].1@;
                assert(v.skip(0) =~= v);
                assert(self.root.has_word(v));
            }
            assert forall|w: Seq<char>| self.contains_spec(w) && lev(w, q@) <= d_max
                implies has_entry_word(cands@, w) by {
                assert(ew + w =~= w);
                assert(self.root.has_word(w) && lev(ew + w, q@) <= d_max);
                assert(found_word(cands@, 0, ew + w));
            }
        }
        let sel = select_ranked(cands, k);
        let ghost gc = cands@;
        let mut i: usize = 0;
        while i < sel.len()
            invariant
                i <= sel@.len(),
                r@.len() == i,
                forall|t: int| 0 <= t < i ==> (#[trigger] r@[t])@ == sel@[t].1@,
            decreases sel@.len() - i,
        {
            let w = clone_word(&sel[i].1);
            r.push(w);
            i = i + 1;
        }
        proof {
            // Listed words and selected entries coincide.
            assert forall|w: Seq<char>| #[trigger] word_in(r@, w) == has_entry_word(sel@, w) by {
                if word_in(r@, w) {
                    let t = choose|t: int| 0 <= t < r@.len() && (#[trigger] r@[t])@ == w;
                    assert(sel@[t].1@ == w);
                }
                if has_entry_word(sel@, w) {
                    let t = choose|t: int| 0 <= t < sel@.len() && (#[trigger] sel@[t]).1@ == w;
                    assert(r@[t]@ == w);
                }
            }
            // Each selected entry carries its candidate's exact distance.
            assert forall|t: int| 0 <= t < sel@.len()
                implies self.contains_spec((#[trigger] sel@[t]).1@)
                    && sel@[t].0 as nat == lev(sel@[t].1@, q@) by {
                assert(entry_of(gc, sel@[t]));
                let j = choose|j: int| 0 <= j < gc.len() && (#[trigger] gc[j]).0 == sel@[t].0
                    && gc[j].1@ == sel@[t].1@;
            }
            // Order and minimality, restated over distances and words.
            assert forall|i2: int, j2: int| 0 <= i2 < j2 < r@.len()
                implies lev((#[trigger] r@[i2])@, q@) < lev((#[trigger] r@[j2])@, q@)
                    || (lev(r@[i2]@, q@) == lev(r@[j2]@, q@) && word_lt(r@[i2]@, r@[j2]@)) by {
                assert(rank_lt(entry_view(sel@[i2]), entry_view(sel@[j2])));
            }
            assert forall|i2: int, w: Seq<char>|
                0 <= i2 < r@.len() && self.contains_spec(w) && lev(w, q@) <= d_max
                    && !(#[trigger] word_in(r@, w))
                implies lev((#[trigger] r@[i2])@, q@) < lev(w, q@)
                    || (lev(r@[i2]@, q@) == lev(w, q@) && word_lt(r@[i2]@, w)) by {
                assert(has_entry_word(gc, w));
                let j = choose|j: int| 0 <= j < gc.len() && (#[trigger] gc[j]).1@ == w;
                assert(!has_entry_word(sel@, gc[j].1@));
                assert(rank_lt(entry_view(sel@[i2]), entry_view(gc[j])));
                assert(gc[j].0 as nat == lev(w, q@));
            }
            if r@.len() != k as int {
                assert(sel@.len() < k as int);
                assert forall|w: Seq<char>| self.contains_spec(w) && lev(w, q@) <= d_max
                    implies #[trigger] word_in(r@, w) by {
                    assert(has_entry_word(gc, w));
                    assert(has_entry_word(sel@, w));
                }
            }
        }
        r
    }

    /// Suggestions under the engine's standard distance bound.
    pub fn alternatives(&self, q: &Vec<char>, k: usize) -> (r: Vec<Vec<char>>)
        requires
            self.wf(),
        ensures
            suggestions_ok(*self, q@, k as int, DEFAULT_DISTANCE, r@),
    {
        self.alternatives_within(q, k, DEFAULT_DISTANCE)
    }

    /// Constant-time `entry_count`.
    pub fn count(&self) -> (r: u64)
        requires
            self.wf(),
        ensures
            r as nat == self.count_spec(),
    {
        self.entries
    }

    /// Constant-time `atom_count`.
    pub fn atoms(&self) -> (r: u64)
        requires
            self.wf(),
        ensures
            r as nat == self.atoms_spec(),
    {
        self.atoms
    }
}

/// The observable effect of one insertion of `s`: `s` is now present, no
/// other word changed, the entry counter grew iff `s` was new, and the node
/// counter grew by exactly one node per symbol of `s` beyond its already
/// present prefix.
pub open spec fn inserted(pre: Trie, post: Trie, s: Seq<char>) -> bool {
    &&& post.contains_spec(s)
    &&& forall|w: Seq<char>| w != s ==> #[trigger] post.contains_spec(w) == pre.contains_spec(w)
    &&& post.count_spec() == pre.count_spec() + (if pre.contains_spec(s) { 0int } else { 1int })
    &&& pre.matched_spec(s) <= s.len()
    &&& post.atoms_spec() == pre.atoms_spec() + s.len() - pre.matched_spec(s)
}

/// A present word traces its full path.
proof fn lemma_traced_full(n: Node, s: Seq<char>)
    requires
        n.wf(),
        n.has_word(s),
    ensures
        traced(n, s) == s.len(),
    decreases s.len(),
{
    if s.len() > 0 {
        let j = choose|j: int|
            #![trigger n.children@[j]]
            0 <= j < n.children@.len() && n.children@[j].0 == s[0]
                && n.children@[j].1.has_word(s.skip(1));
        let m = choose|m: int|
            #![trigger n.children@[m]]
            0 <= m < n.children@.len() && n.children@[m].0 == s[0];
        assert(m == j);
        lemma_traced_full(n.children@[j].1, s.skip(1));
    }
}

/// After inserting `s`, the engine reports `s` as present.
pub proof fn lemma_insert_makes_member(pre: Trie, post: Trie, s: Seq<char>)
    requires
        inserted(pre, post, s),
    ensures
        post.contains_spec(s),
{
}

/// A word never inserted, and distinct from the one just inserted, stays
/// absent.
pub proof fn lemma_absent_unless_inserted(pre: Trie, post: Trie, s: Seq<char>, w: Seq<char>)
    requires
        inserted(pre, post, s),
        !pre.contains_spec(w),
        w != s,
    ensures
        !post.contains_spec(w),
{
}

/// Re-inserting a word that is already present changes neither counter:
/// insertion is idempotent.
pub proof fn lemma_insert_idempotent(t0: Trie, t1: Trie, t2: Trie, s: Seq<char>)
    requires
        t1.wf(),
        inserted(t0, t1, s),
        inserted(t1, t2, s),
    ensures
        t2.count_spec() == t1.count_spec(),
        t2.atoms_spec() == t1.atoms_spec(),
{
    lemma_traced_full(t1.root, s);
}

/// A word that is present already has its whole path in the tree, so
/// re-inserting it creates no nodes.
pub proof fn lemma_present_word_fully_matched(t: Trie, s: Seq<char>)
    requires
        t.wf(),
        t.contains_spec(s),
    ensures
        t.matched_spec(s) == s.len(),
{
    lemma_traced_full(t.root, s);
}

/// The node counter never decreases across an insertion, and grows by at most
/// one node per symbol.
pub proof fn lemma_atoms_monotonic(pre: Trie, post: Trie, s: Seq<char>)
    requires
        inserted(pre, post, s),
    ensures
        post.atoms_spec() >= pre.atoms_spec(),
        post.atoms_spec() <= pre.atoms_spec() + s.len(),
{
}

/// The bound used by `alternatives`: how far a suggestion may drift from the
/// query.
pub const DEFAULT_DISTANCE: u64 = 2;

/// `w` is one of the listed suggestion words.
pub open spec fn word_in(r: Seq<Vec<char>>, w: Seq<char>) -> bool {
    exists|t: int| 0 <= t < r.len() && (#[trigger] r[t])@ == w
}

/// What a suggestion list must be: at most `k` stored words within `d_max` of
/// the query, ranked by ascending distance with lexicographic tie-breaking,
/// exhaustive when shorter than `k`, and never beaten by an unlisted word.
pub open spec fn suggestions_ok(
    t: Trie,
    q: Seq<char>,
    k: int,
    d_max: u64,
    r: Seq<Vec<char>>,
) -> bool {
    &&& r.len() <= k
    &&& (forall|i: int| 0 <= i < r.len()
        ==> t.contains_spec((#[trigger] r[i])@) && lev(r[i]@, q) <= d_max)
    &&& (forall|i: int, j: int| 0 <= i < j < r.len()
        ==> lev((#[trigger] r[i])@, q) < lev((#[trigger] r[j])@, q)
            || (lev(r[i]@, q) == lev(r[j]@, q) && word_lt(r[i]@, r[j]@)))
    &&& (r.len() == k || (forall|w: Seq<char>|
        t.contains_spec(w) && lev(w, q) <= d_max ==> #[trigger] word_in(r, w)))
    &&& (forall|i: int, w: Seq<char>|
        0 <= i < r.len() && t.contains_spec(w) && lev(w, q) <= d_max && !(#[trigger] word_in(r, w))
            ==> lev((#[trigger] r[i])@, q) < lev(w, q)
                || (lev(r[i]@, q) == lev(w, q) && word_lt(r[i]@, w)))
}

} // verus!
