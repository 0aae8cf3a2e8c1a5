//! The language of a pattern tree and of an automaton fragment, and the
//! facts about walks that tie the two together.
use vstd::prelude::*;

use crate::ast::Node;
use crate::lexer::Op;
use crate::nfa::{NFA, NULL};

verus! {

/// `w` is in the language of the tree `n`: a byte, a range of bytes, an
/// alternation, a concatenation, or a repetition of a subtree.
pub open spec fn in_language(n: Node, w: Seq<u8>) -> bool
    decreases n, w.len(), w.len() + 3,
{
    match n {
        Node::Char(c) => w.len() == 1 && w[0] as int == c as int,
        Node::BinaryExpr(b) => match b.op {
            Op::BAR => in_language(*b.left, w) || in_language(*b.right, w),
            Op::AND => split_upto(n, w, w.len() as int),
            Op::DASH => match (*b.left, *b.right) {
                (Node::Char(lo), Node::Char(hi)) => w.len() == 1 && lo as int <= w[0] as int <= hi as int,
                _ => false,
            },
            _ => false,
        },
        Node::UnaryExpr(u) => match u.op {
            Op::STAR => w.len() == 0 || repeated(n, w),
            Op::PLUS => repeated(n, w),
            Op::QUESTION => w.len() == 0 || in_language(*u.child, w),
            _ => false,
        },
    }
}

/// For a concatenation `n`: some split of `w` at a position up to `i`
/// has its left part in the left language and its right part in the right.
pub open spec fn split_upto(n: Node, w: Seq<u8>, i: int) -> bool
    decreases n, w.len(), i,
{
    if i < 0 || i > w.len() {
        false
    } else {
        match n {
            Node::BinaryExpr(b) => (in_language(*b.left, w.subrange(0, i)) && in_language(*b.right, w.subrange(i, w.len() as int)))
                || (i > 0 && split_upto(n, w, i - 1)),
            _ => false,
        }
    }
}

/// For a repetition `n`: `w` is one or more words of its child's language.
pub open spec fn repeated(n: Node, w: Seq<u8>) -> bool
    decreases n, w.len(), w.len() + 2,
{
    match n {
        Node::UnaryExpr(u) => in_language(*u.child, w) || (w.len() >= 2 && repeat_upto(n, w, w.len() - 1)),
        _ => false,
    }
}

/// For a repetition `n`: some nonempty proper prefix of `w` of length up
/// to `i` is a word of the child, and the rest is repeated.
pub open spec fn repeat_upto(n: Node, w: Seq<u8>, i: int) -> bool
    decreases n, w.len(), i,
{
    if i < 1 || i >= w.len() {
        false
    } else {
        match n {
            Node::UnaryExpr(u) => (in_language(*u.child, w.subrange(0, i)) && repeated(n, w.subrange(i, w.len() as int)))
                || (i > 1 && repeat_upto(n, w, i - 1)),
            _ => false,
        }
    }
}

proof fn lemma_split_intro(n: Node, w: Seq<u8>, i: int, j: int)
    requires
        n is BinaryExpr,
        0 <= j <= i <= w.len(),
        in_language(*n->BinaryExpr_0.left, w.subrange(0, j)),
        in_language(*n->BinaryExpr_0.right, w.subrange(j, w.len() as int)),
    ensures
        split_upto(n, w, i),
    decreases i,
{
    if j < i {
        lemma_split_intro(n, w, i - 1, j);
    }
}

proof fn lemma_split_elim(n: Node, w: Seq<u8>, i: int) -> (j: int)
    requires
        n is BinaryExpr,
        split_upto(n, w, i),
    ensures
        0 <= j <= i <= w.len(),
        in_language(*n->BinaryExpr_0.left, w.subrange(0, j)),
        in_language(*n->BinaryExpr_0.right, w.subrange(j, w.len() as int)),
    decreases i,
{
    let b = n->BinaryExpr_0;
    if in_language(*b.left, w.subrange(0, i)) && in_language(*b.right, w.subrange(i, w.len() as int)) {
        i
    } else {
        let j = lemma_split_elim(n, w, i - 1);
        j
    }
}

proof fn lemma_repeat_intro(n: Node, w: Seq<u8>, i: int, j: int)
    requires
        n is UnaryExpr,
        1 <= j <= i < w.len(),
        in_language(*n->UnaryExpr_0.child, w.subrange(0, j)),
        repeated(n, w.subrange(j, w.len() as int)),
    ensures
        repeat_upto(n, w, i),
    decreases i,
{
    if j < i {
        lemma_repeat_intro(n, w, i - 1, j);
    }
}

proof fn lemma_repeat_elim(n: Node, w: Seq<u8>, i: int) -> (j: int)
    requires
        n is UnaryExpr,
        repeat_upto(n, w, i),
    ensures
        1 <= j <= i < w.len(),
        in_language(*n->UnaryExpr_0.child, w.subrange(0, j)),
        repeated(n, w.subrange(j, w.len() as int)),
    decreases i,
{
    let u = n->UnaryExpr_0;
    if in_language(*u.child, w.subrange(0, i)) && repeated(n, w.subrange(i, w.len() as int)) {
        i
    } else {
        let j = lemma_repeat_elim(n, w, i - 1);
        j
    }
}


/// A walk of at most `k` steps from state `s` to state `t` that reads `w`;
/// a step follows an epsilon edge or reads one byte along a transition.
pub open spec fn walk(g: &NFA, s: int, w: Seq<u8>, t: int, k: nat) -> bool
    decreases k, 0nat,
{
    if k == 0 {
        s == t && w.len() == 0
    } else {
        ||| (s == t && w.len() == 0)
        ||| eps_walk(g, s, w, t, (k - 1) as nat, g.eps@[s]@.len())
        ||| (w.len() > 0 && g.jumps@[s][w[0] as int] != NULL && walk(
            g,
            g.jumps@[s][w[0] as int] as int,
            w.drop_first(),
            t,
            (k - 1) as nat,
        ))
    }
}

/// One of the first `j` epsilon edges of `s` starts a walk of at most `k`
/// steps to `t` that reads `w`.
pub open spec fn eps_walk(g: &NFA, s: int, w: Seq<u8>, t: int, k: nat, j: nat) -> bool
    decreases k, j + 1,
{
    j > 0 && (walk(g, g.eps@[s]@[j - 1] as int, w, t, k) || eps_walk(g, s, w, t, k, (j - 1) as nat))
}

/// Some epsilon edge of `s` starts a walk of at most `k` steps to `t`
/// that reads `w`.
pub open spec fn eps_any(g: &NFA, s: int, w: Seq<u8>, t: int, k: nat) -> bool {
    exists|j: int| 0 <= j < g.eps@[s]@.len() && #[trigger] walk(g, g.eps@[s]@[j] as int, w, t, k)
}

/// Some walk from `s` to `t` reads `w`.
pub open spec fn reaches(g: &NFA, s: int, w: Seq<u8>, t: int) -> bool {
    exists|k: nat| #[trigger] walk(g, s, w, t, k)
}

/// The fragment from `r.0` to `r.1` reads exactly the language of `n`.
pub open spec fn recognizes(g: &NFA, r: (usize, usize), n: Node) -> bool {
    forall|w: Seq<u8>| #[trigger] reaches(g, r.0 as int, w, r.1 as int) == in_language(n, w)
}

/// Every edge from a state in `lo..hi` ends in `lo..hi`.
pub open spec fn within(g: &NFA, lo: int, hi: int) -> bool {
    &&& forall|s: int, b: int|
        lo <= s < hi && 0 <= b < 256 ==> #[trigger] g.jumps@[s][b] == NULL || (lo <= g.jumps@[s][b] < hi)
    &&& forall|s: int, k: int| lo <= s < hi && 0 <= k < g.eps@[s]@.len() ==> lo <= #[trigger] g.eps@[s]@[k] < hi
}

/// States `lo..hi`, but `e`, have the same edges in `g` and `h`.
pub open spec fn same_rows(g: &NFA, h: &NFA, lo: int, hi: int, e: int) -> bool {
    &&& forall|s: int| lo <= s < hi && s != e ==> #[trigger] h.jumps@[s] == g.jumps@[s]
    &&& forall|s: int| lo <= s < hi && s != e ==> #[trigger] h.eps@[s] == g.eps@[s]
}

proof fn lemma_eps_walk(g: &NFA, s: int, w: Seq<u8>, t: int, k: nat, j: nat)
    requires
        j <= g.eps@[s]@.len(),
    ensures
        eps_walk(g, s, w, t, k, j) == exists|i: int| 0 <= i < j && #[trigger] walk(g, g.eps@[s]@[i] as int, w, t, k),
    decreases j,
{
    if j > 0 {
        lemma_eps_walk(g, s, w, t, k, (j - 1) as nat);
        let last = j - 1;
        if walk(g, g.eps@[s]@[last] as int, w, t, k) {
            assert(exists|i: int| 0 <= i < j && #[trigger] walk(g, g.eps@[s]@[i] as int, w, t, k));
        }
        if exists|i: int| 0 <= i < j && #[trigger] walk(g, g.eps@[s]@[i] as int, w, t, k) {
            let i = choose|i: int| 0 <= i < j && #[trigger] walk(g, g.eps@[s]@[i] as int, w, t, k);
            if i < j - 1 {
                assert(exists|i2: int| 0 <= i2 < j - 1 && #[trigger] walk(g, g.eps@[s]@[i2] as int, w, t, k));
            }
        }
    }
}

/// One step of a walk.
pub proof fn lemma_walk_unfold(g: &NFA, s: int, w: Seq<u8>, t: int, k: nat)
    requires
        k > 0,
    ensures
        walk(g, s, w, t, k) == ((s == t && w.len() == 0) || eps_any(g, s, w, t, (k - 1) as nat)
            || (w.len() > 0 && g.jumps@[s][w[0] as int] != NULL && walk(
            g,
            g.jumps@[s][w[0] as int] as int,
            w.drop_first(),
            t,
            (k - 1) as nat,
        ))),
{
    lemma_eps_walk(g, s, w, t, (k - 1) as nat, g.eps@[s]@.len());
}

pub proof fn lemma_walk_mono(g: &NFA, s: int, w: Seq<u8>, t: int, k: nat, k2: nat)
    requires
        walk(g, s, w, t, k),
        k <= k2,
    ensures
        walk(g, s, w, t, k2),
    decreases k2 - k,
{
    if k2 > k {
        lemma_walk_mono_one(g, s, w, t, k);
        lemma_walk_mono(g, s, w, t, k + 1, k2);
    }
}

proof fn lemma_walk_mono_one(g: &NFA, s: int, w: Seq<u8>, t: int, k: nat)
    requires
        walk(g, s, w, t, k),
    ensures
        walk(g, s, w, t, k + 1),
    decreases k,
{
    lemma_walk_unfold(g, s, w, t, k + 1);
    if k > 0 {
        lemma_walk_unfold(g, s, w, t, k);
        if s == t && w.len() == 0 {
        } else if eps_any(g, s, w, t, (k - 1) as nat) {
            let j = choose|j: int| 0 <= j < g.eps@[s]@.len() && #[trigger] walk(g, g.eps@[s]@[j] as int, w, t, (k - 1) as nat);
            lemma_walk_mono_one(g, g.eps@[s]@[j] as int, w, t, (k - 1) as nat);
            assert(walk(g, g.eps@[s]@[j] as int, w, t, k));
        } else {
            lemma_walk_mono_one(g, g.jumps@[s][w[0] as int] as int, w.drop_first(), t, (k - 1) as nat);
        }
    }
}

/// A walk to `b` followed by a walk from `b` is a walk.
pub proof fn lemma_walk_concat(g: &NFA, a: int, u: Seq<u8>, b: int, v: Seq<u8>, c: int, k1: nat, k2: nat)
    requires
        walk(g, a, u, b, k1),
        walk(g, b, v, c, k2),
    ensures
        walk(g, a, u + v, c, k1 + k2),
    decreases k1,
{
    if k1 > 0 {
        lemma_walk_unfold(g, a, u, b, k1);
        lemma_walk_unfold(g, a, u + v, c, k1 + k2);
    }
    if a == b && u.len() == 0 {
        assert(u + v =~= v);
        lemma_walk_mono(g, b, v, c, k2, k1 + k2);
    } else if eps_any(g, a, u, b, (k1 - 1) as nat) {
        let j = choose|j: int| 0 <= j < g.eps@[a]@.len() && #[trigger] walk(g, g.eps@[a]@[j] as int, u, b, (k1 - 1) as nat);
        lemma_walk_concat(g, g.eps@[a]@[j] as int, u, b, v, c, (k1 - 1) as nat, k2);
        assert(walk(g, g.eps@[a]@[j] as int, u + v, c, (k1 + k2 - 1) as nat));
    } else {
        let y = g.jumps@[a][u[0] as int] as int;
        lemma_walk_concat(g, y, u.drop_first(), b, v, c, (k1 - 1) as nat, k2);
        assert((u + v).drop_first() =~= u.drop_first() + v);
        assert((u + v)[0] == u[0]);
    }
}

/// A walk from a state without edges stays there and reads nothing.
pub proof fn lemma_walk_stuck(g: &NFA, e: int, w: Seq<u8>, x: int, k: nat)
    requires
        g.no_edge_from(e),
        walk(g, e, w, x, k),
    ensures
        x == e,
        w.len() == 0,
{
    if k > 0 {
        lemma_walk_unfold(g, e, w, x, k);
    }
}

/// Walks among states whose edges are the same in two automata, and stay
/// among those states, are the same walks.
pub proof fn lemma_walk_same(g: &NFA, h: &NFA, lo: int, hi: int, s: int, w: Seq<u8>, t: int, k: nat)
    requires
        within(g, lo, hi),
        same_rows(g, h, lo, hi, -1),
        0 <= lo <= s < hi,
    ensures
        walk(g, s, w, t, k) == walk(h, s, w, t, k),
    decreases k,
{
    if k > 0 {
        lemma_walk_unfold(g, s, w, t, k);
        lemma_walk_unfold(h, s, w, t, k);
        assert(h.jumps@[s] == g.jumps@[s]);
        assert(h.eps@[s] == g.eps@[s]);
        assert forall|j: int| 0 <= j < g.eps@[s]@.len() implies #[trigger] walk(g, g.eps@[s]@[j] as int, w, t, (k - 1) as nat)
            == walk(h, h.eps@[s]@[j] as int, w, t, (k - 1) as nat) by {
            lemma_walk_same(g, h, lo, hi, g.eps@[s]@[j] as int, w, t, (k - 1) as nat);
        }
        if w.len() > 0 && g.jumps@[s][w[0] as int] != NULL {
            lemma_walk_same(g, h, lo, hi, g.jumps@[s][w[0] as int] as int, w.drop_first(), t, (k - 1) as nat);
        }
        if eps_any(h, s, w, t, (k - 1) as nat) {
            let j = choose|j: int| 0 <= j < h.eps@[s]@.len() && #[trigger] walk(h, h.eps@[s]@[j] as int, w, t, (k - 1) as nat);
            assert(walk(g, g.eps@[s]@[j] as int, w, t, (k - 1) as nat));
        }
    }
}

/// A walk that leaves a region of states only through its exit `e`, whose
/// other states keep their edges, first reaches `e` along the old edges.
pub proof fn lemma_walk_split(g: &NFA, h: &NFA, lo: int, hi: int, e: int, x: int, w: Seq<u8>, t: int, k: nat) -> (r: (
    Seq<u8>,
    Seq<u8>,
    nat,
    nat,
))
    requires
        within(g, lo, hi),
        same_rows(g, h, lo, hi, e),
        0 <= lo <= e < hi,
        lo <= x < hi,
        !(lo <= t < hi),
        walk(h, x, w, t, k),
    ensures
        w == r.0 + r.1,
        walk(g, x, r.0, e, r.2),
        walk(h, e, r.1, t, r.3),
        r.3 <= k,
    decreases k,
{
    if x == e {
        assert(w =~= Seq::<u8>::empty() + w);
        (Seq::<u8>::empty(), w, 0, k)
    } else {
        lemma_walk_unfold(h, x, w, t, k);
        assert(h.jumps@[x] == g.jumps@[x]);
        assert(h.eps@[x] == g.eps@[x]);
        if eps_any(h, x, w, t, (k - 1) as nat) {
            let j = choose|j: int| 0 <= j < h.eps@[x]@.len() && #[trigger] walk(h, h.eps@[x]@[j] as int, w, t, (k - 1) as nat);
            let y = h.eps@[x]@[j] as int;
            let q = lemma_walk_split(g, h, lo, hi, e, y, w, t, (k - 1) as nat);
            assert(walk(g, g.eps@[x]@[j] as int, q.0, e, q.2));
            lemma_walk_unfold(g, x, q.0, e, q.2 + 1);
            (q.0, q.1, q.2 + 1, q.3)
        } else {
            let y = h.jumps@[x][w[0] as int] as int;
            let q = lemma_walk_split(g, h, lo, hi, e, y, w.drop_first(), t, (k - 1) as nat);
            let u = seq![w[0]] + q.0;
            assert(u[0] == w[0]);
            assert(u.drop_first() =~= q.0);
            lemma_walk_unfold(g, x, u, e, q.2 + 1);
            assert(w =~= u + q.1) by {
                assert(w =~= seq![w[0]] + w.drop_first());
            }
            (u, q.1, q.2 + 1, q.3)
        }
    }
}

/// The rows of `g` are in `h`, with at most epsilon edges added at their ends.
pub open spec fn extends(g: &NFA, h: &NFA) -> bool {
    &&& forall|x: int| 0 <= x < g.ncount ==> #[trigger] h.jumps@[x] == g.jumps@[x]
    &&& forall|x: int|
        0 <= x < g.ncount ==> #[trigger] h.eps@[x]@.len() >= g.eps@[x]@.len() && h.eps@[x]@.subrange(
            0,
            g.eps@[x]@.len() as int,
        ) == g.eps@[x]@
}

/// An automaton whose rows only gained epsilon edges at their ends keeps
/// every walk.
pub proof fn lemma_walk_grow(g: &NFA, h: &NFA, s: int, w: Seq<u8>, t: int, k: nat)
    requires
        g.wf(),
        0 <= s < g.ncount,
        extends(g, h),
        walk(g, s, w, t, k),
    ensures
        walk(h, s, w, t, k),
    decreases k,
{
    if k > 0 {
        lemma_walk_unfold(g, s, w, t, k);
        lemma_walk_unfold(h, s, w, t, k);
        if s == t && w.len() == 0 {
        } else if eps_any(g, s, w, t, (k - 1) as nat) {
            let j = choose|j: int| 0 <= j < g.eps@[s]@.len() && #[trigger] walk(g, g.eps@[s]@[j] as int, w, t, (k - 1) as nat);
            lemma_walk_grow(g, h, g.eps@[s]@[j] as int, w, t, (k - 1) as nat);
            assert(h.eps@[s]@.subrange(0, g.eps@[s]@.len() as int)[j] == h.eps@[s]@[j]);
            assert(walk(h, h.eps@[s]@[j] as int, w, t, (k - 1) as nat));
        } else {
            lemma_walk_grow(g, h, g.jumps@[s][w[0] as int] as int, w.drop_first(), t, (k - 1) as nat);
        }
    }
}

pub proof fn lemma_reaches(g: &NFA, s: int, w: Seq<u8>, t: int, k: nat)
    requires
        walk(g, s, w, t, k),
    ensures
        reaches(g, s, w, t),
{
}

/// Edges of the states from `lo` on stay among them.
pub proof fn lemma_within(g: &NFA, lo: int)
    requires
        g.wf(),
        0 <= lo,
        g.closed_above(lo),
    ensures
        within(g, lo, g.ncount as int),
{
    assert forall|s: int, b: int| lo <= s < g.ncount && 0 <= b < 256 implies #[trigger] g.jumps@[s][b] == NULL || (lo
        <= g.jumps@[s][b] < g.ncount) by {
        assert(g.jumps@[s][b] == NULL || g.jumps@[s][b] < g.ncount);
        assert(g.jumps@[s][b] == NULL || g.jumps@[s][b] >= lo);
    }
    assert forall|s: int, k: int| lo <= s < g.ncount && 0 <= k < g.eps@[s]@.len() implies lo <= #[trigger] g.eps@[s]@[k]
        < g.ncount by {
        assert(g.eps@[s]@[k] < g.ncount);
        assert(g.eps@[s]@[k] >= lo);
    }
}

/// A fragment keeps its language while states outside its region change.
pub proof fn lemma_recognizes_kept(g: &NFA, h: &NFA, lo: int, hi: int, c: (usize, usize), n: Node)
    requires
        within(g, lo, hi),
        same_rows(g, h, lo, hi, -1),
        0 <= lo <= c.0 < hi,
        recognizes(g, c, n),
    ensures
        recognizes(h, c, n),
{
    assert forall|w: Seq<u8>| #[trigger] reaches(h, c.0 as int, w, c.1 as int) == in_language(n, w) by {
        if reaches(h, c.0 as int, w, c.1 as int) {
            let k = choose|k: nat| #[trigger] walk(h, c.0 as int, w, c.1 as int, k);
            lemma_walk_same(g, h, lo, hi, c.0 as int, w, c.1 as int, k);
            lemma_reaches(g, c.0 as int, w, c.1 as int, k);
        }
        if reaches(g, c.0 as int, w, c.1 as int) {
            let k = choose|k: nat| #[trigger] walk(g, c.0 as int, w, c.1 as int, k);
            lemma_walk_same(g, h, lo, hi, c.0 as int, w, c.1 as int, k);
            lemma_reaches(h, c.0 as int, w, c.1 as int, k);
        }
    }
}

/// A start whose only edges are transitions on the bytes of `set` to an
/// end without edges reads exactly the one-byte words of `set`.
pub proof fn lemma_single(h: &NFA, i: int, f: int, set: Set<int>)
    requires
        i != f,
        h.no_edge_from(f),
        h.eps@[i]@.len() == 0,
        forall|b: int| 0 <= b < 256 ==> #[trigger] h.jumps@[i][b] == if set.contains(b) { f as usize } else { NULL },
        0 <= f < NULL,
    ensures
        forall|w: Seq<u8>| #[trigger] reaches(h, i, w, f) == (w.len() == 1 && set.contains(w[0] as int)),
{
    assert forall|w: Seq<u8>| #[trigger] reaches(h, i, w, f) == (w.len() == 1 && set.contains(w[0] as int)) by {
        if reaches(h, i, w, f) {
            let k = choose|k: nat| #[trigger] walk(h, i, w, f, k);
            if k > 0 {
                lemma_walk_unfold(h, i, w, f, k);
                if w.len() > 0 && h.jumps@[i][w[0] as int] != NULL && walk(h, h.jumps@[i][w[0] as int] as int, w.drop_first(), f, (k - 1) as nat) {
                    lemma_walk_stuck(h, f, w.drop_first(), f, (k - 1) as nat);
                }
            }
        }
        if w.len() == 1 && set.contains(w[0] as int) {
            assert(w.drop_first().len() == 0);
            assert(walk(h, f, w.drop_first(), f, 0));
            lemma_walk_unfold(h, i, w, f, 1);
            lemma_reaches(h, i, w, f, 1);
        }
    }
}

/// How a handler grew the automaton `g` into `h` around a child fragment
/// `c` in the region `lo..hi`, whose end now has the epsilon edges `out`.
pub open spec fn grown(g: &NFA, h: &NFA, lo: int, hi: int, c: (usize, usize), out: Seq<usize>) -> bool {
    &&& g.wf()
    &&& within(g, lo, hi)
    &&& 0 <= lo <= c.0 < hi
    &&& lo <= c.1 < hi
    &&& c.0 != c.1
    &&& hi <= g.ncount
    &&& g.no_edge_from(c.1 as int)
    &&& same_rows(g, h, lo, hi, c.1 as int)
    &&& extends(g, h)
    &&& h.eps@[c.1 as int]@ == out
}

/// Leaving a child fragment through one new epsilon edge from its end to
/// a fresh end `f` reads the child's language.
pub proof fn lemma_exit_lang(g: &NFA, h: &NFA, lo: int, hi: int, c: (usize, usize), n: Node, f: int)
    requires
        grown(g, h, lo, hi, c, seq![f as usize]),
        recognizes(g, c, n),
        hi <= f < NULL,
        h.no_edge_from(f),
    ensures
        forall|w: Seq<u8>| #[trigger] reaches(h, c.0 as int, w, f) == in_language(n, w),
{
    assert(seq![f as usize][0] == f as usize);
    assert forall|w: Seq<u8>| #[trigger] reaches(h, c.0 as int, w, f) == in_language(n, w) by {
        if reaches(h, c.0 as int, w, f) {
            let k = choose|k: nat| #[trigger] walk(h, c.0 as int, w, f, k);
            let q = lemma_walk_split(g, h, lo, hi, c.1 as int, c.0 as int, w, f, k);
            lemma_reaches(g, c.0 as int, q.0, c.1 as int, q.2);
            assert(in_language(n, q.0));
            lemma_walk_unfold(h, c.1 as int, q.1, f, q.3);
            assert(h.jumps@[c.1 as int] == g.jumps@[c.1 as int]);
            if eps_any(h, c.1 as int, q.1, f, (q.3 - 1) as nat) {
                let j = choose|j: int| 0 <= j < h.eps@[c.1 as int]@.len() && #[trigger] walk(h, h.eps@[c.1 as int]@[j] as int, q.1, f, (q.3 - 1) as nat);
                lemma_walk_stuck(h, f, q.1, f, (q.3 - 1) as nat);
            }
            assert(w =~= q.0);
        }
        if in_language(n, w) {
            assert(reaches(g, c.0 as int, w, c.1 as int));
            let k = choose|k: nat| #[trigger] walk(g, c.0 as int, w, c.1 as int, k);
            lemma_walk_grow(g, h, c.0 as int, w, c.1 as int, k);
            let e = Seq::<u8>::empty();
            assert(walk(h, f, e, f, 0));
            lemma_walk_unfold(h, c.1 as int, e, f, 1);
            lemma_walk_concat(h, c.0 as int, w, c.1 as int, e, f, k, 1);
            assert(w + e =~= w);
            lemma_reaches(h, c.0 as int, w, f, k + 1);
        }
    }
}

/// Words of the child of a repetition one after another are repeated.
proof fn lemma_repeated_cons(nd: Node, u: Seq<u8>, v: Seq<u8>)
    requires
        nd is UnaryExpr,
        in_language(*nd->UnaryExpr_0.child, u),
        v.len() == 0 || repeated(nd, v),
    ensures
        repeated(nd, u + v),
{
    let w = u + v;
    if v.len() == 0 {
        assert(w =~= u);
    } else if u.len() == 0 {
        assert(w =~= v);
    } else {
        let i = u.len() as int;
        assert(w.subrange(0, i) =~= u);
        assert(w.subrange(i, w.len() as int) =~= v);
        lemma_repeat_intro(nd, w, w.len() - 1, i);
    }
}

/// Looping from a child fragment's end back to its start, or on to a
/// fresh end `f`, reads the words that repeat the child.
pub proof fn lemma_loop_lang(g: &NFA, h: &NFA, lo: int, hi: int, c: (usize, usize), nd: Node, f: int)
    requires
        nd is UnaryExpr,
        grown(g, h, lo, hi, c, seq![c.0, f as usize]),
        recognizes(g, c, *nd->UnaryExpr_0.child),
        hi <= f < NULL,
        h.no_edge_from(f),
    ensures
        forall|w: Seq<u8>| #[trigger] reaches(h, c.0 as int, w, f) == repeated(nd, w),
{
    assert forall|w: Seq<u8>| #[trigger] reaches(h, c.0 as int, w, f) == repeated(nd, w) by {
        if reaches(h, c.0 as int, w, f) {
            let k = choose|k: nat| #[trigger] walk(h, c.0 as int, w, f, k);
            lemma_loop_sound(g, h, lo, hi, c, nd, f, w, k);
        }
        if repeated(nd, w) {
            let k = lemma_loop_complete(g, h, lo, hi, c, nd, f, w);
            lemma_reaches(h, c.0 as int, w, f, k);
        }
    }
}

proof fn lemma_loop_sound(g: &NFA, h: &NFA, lo: int, hi: int, c: (usize, usize), nd: Node, f: int, w: Seq<u8>, k: nat)
    requires
        nd is UnaryExpr,
        grown(g, h, lo, hi, c, seq![c.0, f as usize]),
        recognizes(g, c, *nd->UnaryExpr_0.child),
        hi <= f < NULL,
        h.no_edge_from(f),
        walk(h, c.0 as int, w, f, k),
    ensures
        repeated(nd, w),
    decreases k,
{
    assert(seq![c.0, f as usize][0] == c.0);
    assert(seq![c.0, f as usize][1] == f as usize);
    let q = lemma_walk_split(g, h, lo, hi, c.1 as int, c.0 as int, w, f, k);
    lemma_reaches(g, c.0 as int, q.0, c.1 as int, q.2);
    assert(in_language(*nd->UnaryExpr_0.child, q.0));
    lemma_walk_unfold(h, c.1 as int, q.1, f, q.3);
    assert(h.jumps@[c.1 as int] == g.jumps@[c.1 as int]);
    let j = choose|j: int| 0 <= j < h.eps@[c.1 as int]@.len() && #[trigger] walk(h, h.eps@[c.1 as int]@[j] as int, q.1, f, (q.3 - 1) as nat);
    if j == 0 {
        lemma_loop_sound(g, h, lo, hi, c, nd, f, q.1, (q.3 - 1) as nat);
    } else {
        lemma_walk_stuck(h, f, q.1, f, (q.3 - 1) as nat);
    }
    lemma_repeated_cons(nd, q.0, q.1);
}

proof fn lemma_loop_complete(g: &NFA, h: &NFA, lo: int, hi: int, c: (usize, usize), nd: Node, f: int, w: Seq<u8>) -> (k: nat)
    requires
        nd is UnaryExpr,
        grown(g, h, lo, hi, c, seq![c.0, f as usize]),
        recognizes(g, c, *nd->UnaryExpr_0.child),
        hi <= f < NULL,
        repeated(nd, w),
    ensures
        walk(h, c.0 as int, w, f, k),
    decreases w.len(),
{
    let cn = *nd->UnaryExpr_0.child;
    assert(seq![c.0, f as usize][0] == c.0);
    assert(seq![c.0, f as usize][1] == f as usize);
    let e = Seq::<u8>::empty();
    if in_language(cn, w) {
        assert(reaches(g, c.0 as int, w, c.1 as int));
        let k1 = choose|k: nat| #[trigger] walk(g, c.0 as int, w, c.1 as int, k);
        lemma_walk_grow(g, h, c.0 as int, w, c.1 as int, k1);
        assert(walk(h, f, e, f, 0));
        lemma_walk_unfold(h, c.1 as int, e, f, 1);
        lemma_walk_concat(h, c.0 as int, w, c.1 as int, e, f, k1, 1);
        assert(w + e =~= w);
        k1 + 1
    } else {
        let i = lemma_repeat_elim(nd, w, w.len() - 1);
        let u = w.subrange(0, i);
        let v = w.subrange(i, w.len() as int);
        assert(reaches(g, c.0 as int, u, c.1 as int));
        let k1 = choose|k: nat| #[trigger] walk(g, c.0 as int, u, c.1 as int, k);
        lemma_walk_grow(g, h, c.0 as int, u, c.1 as int, k1);
        let k3 = lemma_loop_complete(g, h, lo, hi, c, nd, f, v);
        assert(walk(h, c.0 as int, e, c.0 as int, 0));
        lemma_walk_unfold(h, c.1 as int, e, c.0 as int, 1);
        lemma_walk_concat(h, c.1 as int, e, c.0 as int, v, f, 1, k3);
        assert(e + v =~= v);
        lemma_walk_concat(h, c.0 as int, u, c.1 as int, v, f, k1, 1 + k3);
        assert(u + v =~= w);
        k1 + 1 + k3
    }
}

/// A fresh start with epsilon edges only reads what one of its successors
/// reads on the way to an end.
pub proof fn lemma_start(h: &NFA, i: int, f: int, w: Seq<u8>)
    requires
        i != f,
        forall|b: int| 0 <= b < 256 ==> #[trigger] h.jumps@[i][b] == NULL,
    ensures
        reaches(h, i, w, f) == exists|j: int| 0 <= j < h.eps@[i]@.len() && #[trigger] reaches(h, h.eps@[i]@[j] as int, w, f),
{
    if reaches(h, i, w, f) {
        let k = choose|k: nat| #[trigger] walk(h, i, w, f, k);
        if k > 0 {
            lemma_walk_unfold(h, i, w, f, k);
            if w.len() > 0 {
                assert(h.jumps@[i][w[0] as int] == NULL);
            }
            let j = choose|j: int| 0 <= j < h.eps@[i]@.len() && #[trigger] walk(h, h.eps@[i]@[j] as int, w, f, (k - 1) as nat);
            lemma_reaches(h, h.eps@[i]@[j] as int, w, f, (k - 1) as nat);
        }
    }
    if exists|j: int| 0 <= j < h.eps@[i]@.len() && #[trigger] reaches(h, h.eps@[i]@[j] as int, w, f) {
        let j = choose|j: int| 0 <= j < h.eps@[i]@.len() && #[trigger] reaches(h, h.eps@[i]@[j] as int, w, f);
        let k = choose|k: nat| #[trigger] walk(h, h.eps@[i]@[j] as int, w, f, k);
        lemma_walk_unfold(h, i, w, f, k + 1);
        lemma_reaches(h, i, w, f, k + 1);
    }
}

/// From an end without edges exactly the empty word reaches it.
pub proof fn lemma_end(h: &NFA, f: int, w: Seq<u8>)
    requires
        h.no_edge_from(f),
    ensures
        reaches(h, f, w, f) == (w.len() == 0),
{
    if reaches(h, f, w, f) {
        let k = choose|k: nat| #[trigger] walk(h, f, w, f, k);
        lemma_walk_stuck(h, f, w, f, k);
    }
    if w.len() == 0 {
        lemma_reaches(h, f, w, f, 0);
    }
}

/// The conditions of a concatenation: the left fragment `l` lives in
/// `lo..mid`, the right fragment `r` in `mid..hi`, and `h` is `g` with
/// the rows of the left end and the right start exchanged.
pub open spec fn swapped_pair(g: &NFA, h: &NFA, lo: int, mid: int, hi: int, l: (usize, usize), r: (usize, usize)) -> bool {
    &&& concat_ready(g, lo, mid, hi, l, r)
    &&& h.ncount == g.ncount
    &&& h.jumps@ == g.jumps@.update(l.1 as int, g.jumps@[r.0 as int]).update(r.0 as int, g.jumps@[l.1 as int])
    &&& h.eps@ == g.eps@.update(l.1 as int, g.eps@[r.0 as int]).update(r.0 as int, g.eps@[l.1 as int])
}

/// Two fragments ready to be concatenated: the left fragment `l` lives in
/// `lo..mid` and has no edge out of its end; the right fragment `r` lives
/// in `mid..hi` and has no edge into its start.
pub open spec fn concat_ready(g: &NFA, lo: int, mid: int, hi: int, l: (usize, usize), r: (usize, usize)) -> bool {
    &&& g.wf()
    &&& 0 <= lo <= l.0 < mid
    &&& lo <= l.1 < mid
    &&& mid <= r.0 < hi
    &&& mid <= r.1 < hi
    &&& r.0 != r.1
    &&& hi <= g.ncount
    &&& within(g, lo, mid)
    &&& within(g, mid, hi)
    &&& g.no_edge_from(l.1 as int)
    &&& g.no_edge_into(r.0 as int)
}

proof fn lemma_right_same(g: &NFA, h: &NFA, lo: int, mid: int, hi: int, l: (usize, usize), r: (usize, usize), y: int, v: Seq<u8>, t: int, k: nat)
    requires
        swapped_pair(g, h, lo, mid, hi, l, r),
        mid <= y < hi,
        y != r.0,
    ensures
        walk(h, y, v, t, k) == walk(g, y, v, t, k),
    decreases k,
{
    if k > 0 {
        lemma_walk_unfold(g, y, v, t, k);
        lemma_walk_unfold(h, y, v, t, k);
        assert(h.jumps@[y] == g.jumps@[y]);
        assert(h.eps@[y] == g.eps@[y]);
        assert forall|j: int| 0 <= j < g.eps@[y]@.len() implies #[trigger] walk(g, g.eps@[y]@[j] as int, v, t, (k - 1) as nat)
            == walk(h, h.eps@[y]@[j] as int, v, t, (k - 1) as nat) by {
            lemma_right_same(g, h, lo, mid, hi, l, r, g.eps@[y]@[j] as int, v, t, (k - 1) as nat);
        }
        if v.len() > 0 && g.jumps@[y][v[0] as int] != NULL {
            lemma_right_same(g, h, lo, mid, hi, l, r, g.jumps@[y][v[0] as int] as int, v.drop_first(), t, (k - 1) as nat);
        }
        if eps_any(h, y, v, t, (k - 1) as nat) {
            let j = choose|j: int| 0 <= j < h.eps@[y]@.len() && #[trigger] walk(h, h.eps@[y]@[j] as int, v, t, (k - 1) as nat);
            assert(walk(g, g.eps@[y]@[j] as int, v, t, (k - 1) as nat));
        }
        if eps_any(g, y, v, t, (k - 1) as nat) {
            let j = choose|j: int| 0 <= j < g.eps@[y]@.len() && #[trigger] walk(g, g.eps@[y]@[j] as int, v, t, (k - 1) as nat);
            assert(walk(h, h.eps@[y]@[j] as int, v, t, (k - 1) as nat));
        }
    }
}

/// After the exchange, the left end walks as the right start did.
proof fn lemma_merged_start(g: &NFA, h: &NFA, lo: int, mid: int, hi: int, l: (usize, usize), r: (usize, usize), v: Seq<u8>, t: int, k: nat)
    requires
        swapped_pair(g, h, lo, mid, hi, l, r),
        mid <= t < hi,
        t != r.0,
    ensures
        walk(h, l.1 as int, v, t, k) == walk(g, r.0 as int, v, t, k),
{
    let a = l.1 as int;
    let b = r.0 as int;
    if k > 0 {
        lemma_walk_unfold(g, b, v, t, k);
        lemma_walk_unfold(h, a, v, t, k);
        assert(h.jumps@[a] == g.jumps@[b]);
        assert(h.eps@[a] == g.eps@[b]);
        assert forall|j: int| 0 <= j < g.eps@[b]@.len() implies #[trigger] walk(g, g.eps@[b]@[j] as int, v, t, (k - 1) as nat)
            == walk(h, h.eps@[a]@[j] as int, v, t, (k - 1) as nat) by {
            lemma_right_same(g, h, lo, mid, hi, l, r, g.eps@[b]@[j] as int, v, t, (k - 1) as nat);
        }
        if v.len() > 0 && g.jumps@[b][v[0] as int] != NULL {
            lemma_right_same(g, h, lo, mid, hi, l, r, g.jumps@[b][v[0] as int] as int, v.drop_first(), t, (k - 1) as nat);
        }
        if eps_any(h, a, v, t, (k - 1) as nat) {
            let j = choose|j: int| 0 <= j < h.eps@[a]@.len() && #[trigger] walk(h, h.eps@[a]@[j] as int, v, t, (k - 1) as nat);
            assert(walk(g, g.eps@[b]@[j] as int, v, t, (k - 1) as nat));
        }
        if eps_any(g, b, v, t, (k - 1) as nat) {
            let j = choose|j: int| 0 <= j < g.eps@[b]@.len() && #[trigger] walk(g, g.eps@[b]@[j] as int, v, t, (k - 1) as nat);
            assert(walk(h, h.eps@[a]@[j] as int, v, t, (k - 1) as nat));
        }
    }
}

/// Walks inside the left fragment that end at its end survive the exchange.
proof fn lemma_left_kept(g: &NFA, h: &NFA, lo: int, mid: int, hi: int, l: (usize, usize), r: (usize, usize), x: int, u: Seq<u8>, k: nat)
    requires
        swapped_pair(g, h, lo, mid, hi, l, r),
        lo <= x < mid,
        walk(g, x, u, l.1 as int, k),
    ensures
        walk(h, x, u, l.1 as int, k),
    decreases k,
{
    if x == l.1 {
        lemma_walk_stuck(g, x, u, l.1 as int, k);
        if k > 0 {
            lemma_walk_unfold(h, x, u, l.1 as int, k);
        }
    } else {
        lemma_walk_unfold(g, x, u, l.1 as int, k);
        lemma_walk_unfold(h, x, u, l.1 as int, k);
        assert(h.jumps@[x] == g.jumps@[x]);
        assert(h.eps@[x] == g.eps@[x]);
        if eps_any(g, x, u, l.1 as int, (k - 1) as nat) {
            let j = choose|j: int| 0 <= j < g.eps@[x]@.len() && #[trigger] walk(g, g.eps@[x]@[j] as int, u, l.1 as int, (k - 1) as nat);
            lemma_left_kept(g, h, lo, mid, hi, l, r, g.eps@[x]@[j] as int, u, (k - 1) as nat);
            assert(walk(h, h.eps@[x]@[j] as int, u, l.1 as int, (k - 1) as nat));
        } else {
            lemma_left_kept(g, h, lo, mid, hi, l, r, g.jumps@[x][u[0] as int] as int, u.drop_first(), (k - 1) as nat);
        }
    }
}

/// Concatenation by exchanging rows reads the left language followed by
/// the right one.
pub proof fn lemma_concat_lang(g: &NFA, h: &NFA, lo: int, mid: int, hi: int, l: (usize, usize), r: (usize, usize), nd: Node)
    requires
        swapped_pair(g, h, lo, mid, hi, l, r),
        nd is BinaryExpr,
        nd->BinaryExpr_0.op == Op::AND,
        recognizes(g, l, *nd->BinaryExpr_0.left),
        recognizes(g, r, *nd->BinaryExpr_0.right),
    ensures
        recognizes(h, (l.0, r.1), nd),
{
    let b = nd->BinaryExpr_0;
    assert forall|w: Seq<u8>| #[trigger] reaches(h, l.0 as int, w, r.1 as int) == in_language(nd, w) by {
        assert(in_language(nd, w) == split_upto(nd, w, w.len() as int));
        if reaches(h, l.0 as int, w, r.1 as int) {
            let k = choose|k: nat| #[trigger] walk(h, l.0 as int, w, r.1 as int, k);
            assert(same_rows(g, h, lo, mid, l.1 as int));
            let q = lemma_walk_split(g, h, lo, mid, l.1 as int, l.0 as int, w, r.1 as int, k);
            lemma_reaches(g, l.0 as int, q.0, l.1 as int, q.2);
            lemma_merged_start(g, h, lo, mid, hi, l, r, q.1, r.1 as int, q.3);
            lemma_reaches(g, r.0 as int, q.1, r.1 as int, q.3);
            assert(in_language(*b.left, q.0));
            assert(in_language(*b.right, q.1));
            let j = q.0.len() as int;
            assert(w.subrange(0, j) =~= q.0);
            assert(w.subrange(j, w.len() as int) =~= q.1);
            lemma_split_intro(nd, w, w.len() as int, j);
        }
        if in_language(nd, w) {
            let j = lemma_split_elim(nd, w, w.len() as int);
            let u = w.subrange(0, j);
            let v = w.subrange(j, w.len() as int);
            assert(reaches(g, l.0 as int, u, l.1 as int));
            assert(reaches(g, r.0 as int, v, r.1 as int));
            let k1 = choose|k: nat| #[trigger] walk(g, l.0 as int, u, l.1 as int, k);
            let k2 = choose|k: nat| #[trigger] walk(g, r.0 as int, v, r.1 as int, k);
            lemma_left_kept(g, h, lo, mid, hi, l, r, l.0 as int, u, k1);
            lemma_merged_start(g, h, lo, mid, hi, l, r, v, r.1 as int, k2);
            lemma_walk_concat(h, l.0 as int, u, l.1 as int, v, r.1 as int, k1, k2);
            assert(u + v =~= w);
            lemma_reaches(h, l.0 as int, w, r.1 as int, k1 + k2);
        }
    }
}

/// Edges that stay in a region stay there while its rows are unchanged.
pub proof fn lemma_within_kept(g: &NFA, h: &NFA, lo: int, hi: int)
    requires
        within(g, lo, hi),
        h.keeps_below(g, hi),
        0 <= lo,
    ensures
        within(h, lo, hi),
        same_rows(g, h, lo, hi, -1),
{
    assert forall|s: int, b: int| lo <= s < hi && 0 <= b < 256 implies #[trigger] h.jumps@[s][b] == NULL || (lo <= h.jumps@[s][b] < hi) by {
        assert(h.jumps@[s] == g.jumps@[s]);
    }
    assert forall|s: int, k: int| lo <= s < hi && 0 <= k < h.eps@[s]@.len() implies lo <= #[trigger] h.eps@[s]@[k] < hi by {
        assert(h.eps@[s] == g.eps@[s]);
    }
}

/// A handler that kept every old row but appended epsilon edges to the
/// empty rows `a` and `b` extends the automaton.
pub proof fn lemma_extends_pushed(g: &NFA, h: &NFA, a: int, b: int)
    requires
        h.frames(g, a, b),
        forall|x: int| 0 <= x < g.ncount && (x == a || x == b) ==> #[trigger] g.eps@[x]@.len() == 0,
    ensures
        extends(g, h),
{
    assert forall|x: int| 0 <= x < g.ncount implies #[trigger] h.eps@[x]@.len() >= g.eps@[x]@.len() && h.eps@[x]@.subrange(
        0,
        g.eps@[x]@.len() as int,
    ) == g.eps@[x]@ by {
        if x != a && x != b {
            assert(h.eps@[x] == g.eps@[x]);
            assert(h.eps@[x]@.subrange(0, g.eps@[x]@.len() as int) =~= g.eps@[x]@);
        } else {
            assert(g.eps@[x]@.len() == 0);
            assert(h.eps@[x]@.subrange(0, 0) =~= g.eps@[x]@);
        }
    }
}

} // verus!
