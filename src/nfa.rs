//! Thompson construction of a nondeterministic automaton over bytes.
use vstd::prelude::*;

use crate::ast::{Match, Node};
use crate::thompson::{
    concat_ready, lemma_concat_lang, lemma_end, lemma_exit_lang, lemma_extends_pushed, lemma_loop_lang, lemma_recognizes_kept,
    lemma_single, lemma_start, lemma_within, lemma_within_kept, in_language, reaches, recognizes, repeated, same_rows, within, walk, eps_any, lemma_walk_unfold, lemma_reaches,
};
use crate::lexer::Op;

verus! {

broadcast use vstd::seq_lib::lemma_seq_contains_after_push;

/// The absent transition.
pub const NULL: usize = usize::MAX;

/// A nondeterministic automaton. States are dense indices; state 0 is the
/// root from which every pattern starts by an epsilon edge.
pub struct NFA {
    pub ncount: usize,
    pub jumps: Vec<[usize; 256]>,
    pub eps: Vec<Vec<usize>>,
    pub accepts: Vec<usize>,
    pub labels: Vec<String>,
}

impl NFA {
    /// Tables agree in size, every edge ends at a state and every accept
    /// label names a pattern.
    pub open spec fn wf(&self) -> bool {
        &&& self.jumps@.len() == self.ncount
        &&& self.eps@.len() == self.ncount
        &&& self.accepts@.len() == self.ncount
        &&& forall|s: int, b: int|
            0 <= s < self.ncount && 0 <= b < 256 ==> #[trigger] self.jumps@[s][b] == NULL
                || self.jumps@[s][b] < self.ncount
        &&& forall|s: int, k: int|
            0 <= s < self.ncount && 0 <= k < self.eps@[s]@.len() ==> #[trigger] self.eps@[s]@[k]
                < self.ncount
        &&& forall|s: int| 0 <= s < self.ncount ==> #[trigger] self.accepts@[s] <= self.labels@.len()
    }

    /// A walk along epsilon edges.
    pub open spec fn is_eps_path(&self, p: Seq<usize>) -> bool {
        &&& p.len() >= 1
        &&& forall|k: int| 0 <= k < p.len() ==> #[trigger] p[k] < self.ncount
        &&& forall|k: int| 1 <= k < p.len() ==> self.eps@[p[k - 1] as int]@.contains(#[trigger] p[k])
    }

    /// The states reachable from `s` along epsilon edges, `s`'s own states included.
    pub open spec fn closure(&self, s: Set<usize>) -> Set<usize> {
        Set::new(|t: usize| exists|p: Seq<usize>| #[trigger] self.is_eps_path(p) && s.contains(p[0]) && p.last() == t)
    }

    /// The states that byte `b` leads to from the states of `s`.
    pub open spec fn step(&self, s: Set<usize>, b: int) -> Set<usize> {
        Set::new(|t: usize| exists|u: usize| #[trigger] s.contains(u) && u < self.ncount && self.jumps@[u as int][b] == t && t != NULL)
    }

    /// The states the automaton can be in after reading `w` from the root.
    pub open spec fn states_after(&self, w: Seq<u8>) -> Set<usize>
        decreases w.len(),
    {
        if w.len() == 0 {
            self.closure(set![0usize])
        } else {
            self.closure(self.step(self.states_after(w.drop_last()), w.last() as int))
        }
    }

    /// Some state reached after `w` completes a pattern.
    pub open spec fn accepts_word(&self, w: Seq<u8>) -> bool {
        exists|s: usize| #[trigger] self.states_after(w).contains(s) && self.accepts@[s as int] != 0
    }

    /// Transitions and labels of the states before `before.ncount` are
    /// unchanged, and so are their epsilon edges, but for states `a` and `b`.
    pub open spec fn frames(&self, before: &NFA, a: int, b: int) -> bool {
        &&& forall|s: int| 0 <= s < before.ncount ==> #[trigger] self.jumps@[s] == before.jumps@[s]
        &&& forall|s: int| 0 <= s < before.ncount ==> #[trigger] self.accepts@[s] == before.accepts@[s]
        &&& forall|s: int| 0 <= s < before.ncount && s != a && s != b ==> #[trigger] self.eps@[s] == before.eps@[s]
    }

    /// The states below `n` are as in `before`.
    pub open spec fn keeps_below(&self, before: &NFA, n: int) -> bool {
        &&& forall|s: int| 0 <= s < n ==> #[trigger] self.jumps@[s] == before.jumps@[s]
        &&& forall|s: int| 0 <= s < n ==> #[trigger] self.accepts@[s] == before.accepts@[s]
        &&& forall|s: int| 0 <= s < n ==> #[trigger] self.eps@[s] == before.eps@[s]
    }

    /// State `s` has no transition and no epsilon edge.
    pub open spec fn no_edge_from(&self, s: int) -> bool {
        &&& forall|b: int| 0 <= b < 256 ==> #[trigger] self.jumps@[s][b] == NULL
        &&& self.eps@[s]@.len() == 0
    }

    /// No transition and no epsilon edge ends at `t`.
    pub open spec fn no_edge_into(&self, t: int) -> bool {
        &&& forall|s: int, b: int| 0 <= s < self.ncount && 0 <= b < 256 ==> #[trigger] self.jumps@[s][b] != t
        &&& forall|s: int, k: int|
            0 <= s < self.ncount && 0 <= k < self.eps@[s]@.len() ==> #[trigger] self.eps@[s]@[k] != t
    }

    /// Every edge from a state at or above `n` ends at or above `n`.
    pub open spec fn closed_above(&self, n: int) -> bool {
        &&& forall|s: int, b: int|
            n <= s < self.ncount && 0 <= b < 256 ==> #[trigger] self.jumps@[s][b] == NULL || self.jumps@[s][b] >= n
        &&& forall|s: int, k: int|
            n <= s < self.ncount && 0 <= k < self.eps@[s]@.len() ==> #[trigger] self.eps@[s]@[k] >= n
    }

    /// `r` is the start and end of a fragment made of the states from `n`
    /// on: nothing enters its start, nothing leaves its end, and its edges
    /// stay among its states. This is what lets concatenation merge the end
    /// of one fragment with the start of the next by exchanging their rows.
    pub open spec fn fragment(&self, n: int, r: (usize, usize)) -> bool {
        &&& n <= r.0 < self.ncount
        &&& n <= r.1 < self.ncount
        &&& r.0 != r.1
        &&& self.no_edge_into(r.0 as int)
        &&& self.no_edge_from(r.1 as int)
        &&& self.closed_above(n)
    }

    /// An automaton without states.
    pub fn new() -> (r: NFA)
        ensures
            r.wf(),
            r.ncount == 0,
            r.labels@.len() == 0,
    {
        NFA { ncount: 0, jumps: Vec::new(), eps: Vec::new(), accepts: Vec::new(), labels: Vec::new() }
    }

    /// A fresh state without edges or label.
    fn make_node(&mut self) -> (r: usize)
        requires
            old(self).wf(),
        ensures
            final(self).wf(),
            r == old(self).ncount,
            final(self).ncount == old(self).ncount + 1,
            final(self).jumps@.len() == old(self).jumps@.len() + 1,
            forall|s: int| 0 <= s < old(self).ncount ==> #[trigger] final(self).jumps@[s] == old(self).jumps@[s],
            forall|b: int| 0 <= b < 256 ==> #[trigger] final(self).jumps@[r as int][b] == NULL,
            final(self).eps@.len() == old(self).eps@.len() + 1,
            forall|s: int| 0 <= s < old(self).ncount ==> #[trigger] final(self).eps@[s] == old(self).eps@[s],
            final(self).eps@[r as int]@.len() == 0,
            final(self).accepts@ == old(self).accepts@.push(0),
            final(self).labels@ == old(self).labels@,
    {
        let r = self.ncount;
        let row = [NULL; 256];
        assert(forall|b: int| 0 <= b < 256 ==> #[trigger] row@[b] == NULL);
        self.jumps.push(row);
        self.eps.push(Vec::new());
        self.accepts.push(0);
        self.ncount = self.jumps.len();
        proof {
            assert forall|s: int, b: int| 0 <= s < self.ncount && 0 <= b < 256 implies #[trigger] self.jumps@[s][b] == NULL
                || self.jumps@[s][b] < self.ncount by {
                if s == r {
                    assert(self.jumps@[s] == row);
                }
            }
        }
        r
    }

    /// A transition from `i` to `f` on byte `c`.
    fn add(&mut self, i: usize, f: usize, c: char)
        requires
            old(self).wf(),
            i < old(self).ncount,
            f < old(self).ncount,
            (c as u32) < 256,
        ensures
            final(self).wf(),
            final(self).ncount == old(self).ncount,
            final(self).jumps@.len() == old(self).jumps@.len(),
            forall|s: int| 0 <= s < old(self).ncount && s != i ==> #[trigger] final(self).jumps@[s] == old(self).jumps@[s],
            final(self).jumps@[i as int]@ == old(self).jumps@[i as int]@.update(c as int, f),
            final(self).eps@ == old(self).eps@,
            final(self).accepts@ == old(self).accepts@,
            final(self).labels@ == old(self).labels@,
    {
        self.jumps[i][c as usize] = f;
    }

    /// An epsilon edge from `i` to `f`.
    fn add_eps(&mut self, i: usize, f: usize)
        requires
            old(self).wf(),
            i < old(self).ncount,
            f < old(self).ncount,
        ensures
            final(self).wf(),
            final(self).ncount == old(self).ncount,
            final(self).jumps@ == old(self).jumps@,
            final(self).eps@.len() == old(self).eps@.len(),
            final(self).eps@[i as int]@ == old(self).eps@[i as int]@.push(f),
            forall|s: int| 0 <= s < old(self).ncount && s != i ==> #[trigger] final(self).eps@[s] == old(self).eps@[s],
            final(self).accepts@ == old(self).accepts@,
            final(self).labels@ == old(self).labels@,
    {
        self.eps[i].push(f);
    }

    /// Exchanges the outgoing edges of `i` and `j`: every edge into either
    /// slot now reaches the other's edges.
    fn swap(&mut self, i: usize, j: usize)
        requires
            old(self).wf(),
            i < old(self).ncount,
            j < old(self).ncount,
        ensures
            final(self).wf(),
            final(self).ncount == old(self).ncount,
            final(self).jumps@ == old(self).jumps@.update(i as int, old(self).jumps@[j as int]).update(j as int, old(self).jumps@[i as int]),
            final(self).eps@ == old(self).eps@.update(i as int, old(self).eps@[j as int]).update(j as int, old(self).eps@[i as int]),
            final(self).accepts@ == old(self).accepts@,
            final(self).labels@ == old(self).labels@,
    {
        let ji = self.jumps[i];
        let jj = self.jumps[j];
        self.jumps.set(i, jj);
        self.jumps.set(j, ji);
        if i != j {
            let mut held: Vec<usize> = Vec::new();
            std::mem::swap(&mut self.eps[i], &mut held);
            std::mem::swap(&mut self.eps[j], &mut held);
            std::mem::swap(&mut self.eps[i], &mut held);
        }
        proof {
            assert(self.jumps@ =~= old(self).jumps@.update(i as int, old(self).jumps@[j as int]).update(j as int, old(self).jumps@[i as int]));
            assert(self.eps@ =~= old(self).eps@.update(i as int, old(self).eps@[j as int]).update(j as int, old(self).eps@[i as int]));
            assert forall|s: int, k: int| 0 <= s < self.ncount && 0 <= k < self.eps@[s]@.len() implies #[trigger] self.eps@[s]@[k]
                < self.ncount by {
                if s == i {
                    assert(self.eps@[s] == old(self).eps@[j as int]);
                } else if s == j {
                    assert(self.eps@[s] == old(self).eps@[i as int]);
                } else {
                    assert(self.eps@[s] == old(self).eps@[s]);
                }
            }
            assert forall|s: int, b: int| 0 <= s < self.ncount && 0 <= b < 256 implies #[trigger] self.jumps@[s][b] == NULL
                || self.jumps@[s][b] < self.ncount by {
                if s == i {
                    assert(self.jumps@[s] == old(self).jumps@[j as int]);
                } else if s == j {
                    assert(self.jumps@[s] == old(self).jumps@[i as int]);
                } else {
                    assert(self.jumps@[s] == old(self).jumps@[s]);
                }
            }
        }
    }

    /// Appends a pattern name and marks `i` as completing it.
    fn label(&mut self, i: usize, label: String)
        requires
            old(self).wf(),
            i < old(self).ncount,
        ensures
            final(self).wf(),
            final(self).ncount == old(self).ncount,
            final(self).jumps@ == old(self).jumps@,
            final(self).eps@ == old(self).eps@,
            final(self).labels@ == old(self).labels@.push(label),
            final(self).accepts@ == old(self).accepts@.update(i as int, final(self).labels@.len() as usize),
            final(self).accepts@[i as int] == final(self).labels@.len(),
    {
        self.labels.push(label);
        let k = self.labels.len();
        self.accepts.set(i, k);
    }

    /// A fragment accepting the byte `c`: a fresh start with one edge on `c`
    /// to a fresh end.
    fn handle_char(&mut self, c: char) -> (r: (usize, usize))
        requires
            old(self).wf(),
            (c as u32) < 256,
        ensures
            final(self).wf(),
            grows(old(self), final(self)),
            r == (old(self).ncount, (old(self).ncount + 1) as usize),
            final(self).ncount == old(self).ncount + 2,
            final(self).accepts@ == old(self).accepts@.push(0).push(0),
            final(self).jumps@[r.0 as int][c as int] == r.1,
            forall|b: int| 0 <= b < 256 && b != c as int ==> #[trigger] final(self).jumps@[r.0 as int][b] == NULL,
            final(self).frames(old(self), -1, -1),
            final(self).eps@[r.0 as int]@.len() == 0,
            final(self).no_edge_from(r.1 as int),
    {
        let i = self.make_node();
        let f = self.make_node();
        self.add(i, f, c);
        (i, f)
    }

    /// A fragment accepting any byte from `start` to `end`.
    fn handle_dash(&mut self, start: char, end: char) -> (r: (usize, usize))
        requires
            old(self).wf(),
            start <= end,
            (end as u32) < 256,
        ensures
            final(self).wf(),
            grows(old(self), final(self)),
            r == (old(self).ncount, (old(self).ncount + 1) as usize),
            final(self).ncount == old(self).ncount + 2,
            final(self).accepts@ == old(self).accepts@.push(0).push(0),
            forall|b: int|
                0 <= b < 256 ==> #[trigger] final(self).jumps@[r.0 as int][b] == if start as int <= b <= end as int {
                    r.1
                } else {
                    NULL
                },
            final(self).frames(old(self), -1, -1),
            final(self).eps@[r.0 as int]@.len() == 0,
            final(self).no_edge_from(r.1 as int),
    {
        let i = self.make_node();
        let f = self.make_node();
        let lo = start as u32;
        let hi = end as u32;
        let mut c: u32 = lo;
        while c <= hi
            invariant
                self.wf(),
                grows(old(self), self),
                i == old(self).ncount,
                f == old(self).ncount + 1,
                self.ncount == old(self).ncount + 2,
                lo == start as u32,
                hi == end as u32,
                hi < 256,
                lo <= c <= hi + 1,
                self.accepts@ == old(self).accepts@.push(0).push(0),
                self.frames(old(self), -1, -1),
                self.eps@[i as int]@.len() == 0,
                self.no_edge_from(f as int),
                forall|b: int|
                    0 <= b < 256 ==> #[trigger] self.jumps@[i as int][b] == if lo <= b < c {
                        f
                    } else {
                        NULL
                    },
            decreases hi + 1 - c,
        {
            self.add(i, f, char_of(c));
            c = c + 1;
        }
        (i, f)
    }

    /// Alternation: a fresh start with epsilon edges into both fragments, and
    /// both ends joined by epsilon edges into a fresh end.
    fn handle_bar(&mut self, left: (usize, usize), right: (usize, usize)) -> (r: (usize, usize))
        requires
            old(self).wf(),
            left.0 < old(self).ncount,
            left.1 < old(self).ncount,
            right.0 < old(self).ncount,
            right.1 < old(self).ncount,
        ensures
            final(self).wf(),
            grows(old(self), final(self)),
            r == (old(self).ncount, (old(self).ncount + 1) as usize),
            final(self).ncount == old(self).ncount + 2,
            final(self).accepts@ == old(self).accepts@.push(0).push(0),
            final(self).eps@[r.0 as int]@ == seq![left.0, right.0],
            final(self).eps@[left.1 as int]@.contains(r.1),
            final(self).eps@[right.1 as int]@.contains(r.1),
            left.1 != right.1 ==> final(self).eps@[left.1 as int]@ == old(self).eps@[left.1 as int]@.push(r.1),
            left.1 != right.1 ==> final(self).eps@[right.1 as int]@ == old(self).eps@[right.1 as int]@.push(r.1),
            forall|b: int| 0 <= b < 256 ==> #[trigger] final(self).jumps@[r.0 as int][b] == NULL,
            final(self).frames(old(self), left.1 as int, right.1 as int),
            final(self).no_edge_from(r.1 as int),
    {
        let i = self.make_node();
        let f = self.make_node();
        self.add_eps(i, left.0);
        self.add_eps(i, right.0);
        self.add_eps(left.1, f);
        let ghost e = self.eps@[left.1 as int]@;
        assert(e.contains(f)) by { assert(e[e.len() - 1] == f); }
        self.add_eps(right.1, f);
        proof {
            let e2 = self.eps@[right.1 as int]@;
            assert(e2[e2.len() - 1] == f);
            if left.1 == right.1 {
                assert(self.eps@[left.1 as int]@ == e.push(f));
            }
            assert(self.eps@[i as int]@ =~= seq![left.0, right.0]);
        }
        (i, f)
    }

    /// Concatenation: the end of `left` and the start of `right` become one
    /// state, by exchanging the edges of the two slots.
    fn handle_add(
        &mut self,
        left: (usize, usize),
        right: (usize, usize),
        Ghost(lo): Ghost<int>,
        Ghost(mid): Ghost<int>,
        Ghost(tree): Ghost<Node>,
    ) -> (r: (usize, usize))
        requires
            old(self).wf(),
            concat_ready(old(self), lo, mid, old(self).ncount as int, left, right),
            tree is BinaryExpr,
            tree->BinaryExpr_0.op == Op::AND,
            recognizes(old(self), left, *tree->BinaryExpr_0.left),
            recognizes(old(self), right, *tree->BinaryExpr_0.right),
            old(self).no_edge_from(left.1 as int),
            old(self).no_edge_into(right.0 as int),
            left.0 < old(self).ncount,
            left.1 < old(self).ncount,
            right.0 < old(self).ncount,
            right.1 < old(self).ncount,
        ensures
            final(self).wf(),
            grows(old(self), final(self)),
            final(self).ncount == old(self).ncount,
            final(self).jumps@[left.1 as int] == old(self).jumps@[right.0 as int],
            final(self).eps@[left.1 as int] == old(self).eps@[right.0 as int],
            final(self).jumps@ == old(self).jumps@.update(left.1 as int, old(self).jumps@[right.0 as int]).update(
                right.0 as int,
                old(self).jumps@[left.1 as int],
            ),
            final(self).eps@ == old(self).eps@.update(left.1 as int, old(self).eps@[right.0 as int]).update(
                right.0 as int,
                old(self).eps@[left.1 as int],
            ),
            final(self).accepts@ == old(self).accepts@,
            r == (left.0, right.1),
            recognizes(final(self), r, tree),
    {
        let (_, lf) = left;
        let (ri, _) = right;
        self.swap(lf, ri);
        proof {
            lemma_concat_lang(old(self), self, lo, mid, old(self).ncount as int, left, right, tree);
        }
        (left.0, right.1)
    }

    /// Option: a fresh start with epsilon edges into the fragment and to a
    /// fresh end, which the fragment's end also reaches.
    fn handle_question(&mut self, child: (usize, usize)) -> (r: (usize, usize))
        requires
            old(self).wf(),
            child.0 < old(self).ncount,
            child.1 < old(self).ncount,
        ensures
            final(self).wf(),
            grows(old(self), final(self)),
            r == (old(self).ncount, (old(self).ncount + 1) as usize),
            final(self).ncount == old(self).ncount + 2,
            final(self).accepts@ == old(self).accepts@.push(0).push(0),
            final(self).eps@[r.0 as int]@ == seq![child.0, r.1],
            final(self).eps@[child.1 as int]@.contains(r.1),
            final(self).eps@[child.1 as int]@ == old(self).eps@[child.1 as int]@.push(r.1),
            forall|b: int| 0 <= b < 256 ==> #[trigger] final(self).jumps@[r.0 as int][b] == NULL,
            final(self).frames(old(self), child.1 as int, -1),
            final(self).no_edge_from(r.1 as int),
    {
        let (start, end) = child;
        let i = self.make_node();
        let f = self.make_node();
        self.add_eps(i, start);
        self.add_eps(i, f);
        self.add_eps(end, f);
        proof {
            let e = self.eps@[end as int]@;
            assert(e[e.len() - 1] == f);
            assert(self.eps@[i as int]@ =~= seq![start, f]);
        }
        (i, f)
    }

    /// One or more repetitions: the fragment's end returns to its start or
    /// leaves to a fresh end; a fresh start enters the fragment.
    fn handle_plus(&mut self, child: (usize, usize)) -> (r: (usize, usize))
        requires
            old(self).wf(),
            child.0 < old(self).ncount,
            child.1 < old(self).ncount,
        ensures
            final(self).wf(),
            grows(old(self), final(self)),
            r == (old(self).ncount, (old(self).ncount + 1) as usize),
            final(self).ncount == old(self).ncount + 2,
            final(self).accepts@ == old(self).accepts@.push(0).push(0),
            final(self).eps@[r.0 as int]@ == seq![child.0],
            final(self).eps@[child.1 as int]@.contains(child.0),
            final(self).eps@[child.1 as int]@.contains(r.1),
            final(self).eps@[child.1 as int]@ == old(self).eps@[child.1 as int]@.push(child.0).push(r.1),
            forall|b: int| 0 <= b < 256 ==> #[trigger] final(self).jumps@[r.0 as int][b] == NULL,
            final(self).frames(old(self), child.1 as int, -1),
            final(self).no_edge_from(r.1 as int),
    {
        let (start, end) = child;
        let i = self.make_node();
        let f = self.make_node();
        self.add_eps(i, start);
        self.add_eps(end, start);
        let ghost e = self.eps@[end as int]@;
        assert(e.contains(start)) by { assert(e[e.len() - 1] == start); }
        self.add_eps(end, f);
        proof {
            let e2 = self.eps@[end as int]@;
            assert(e2[e2.len() - 1] == f);
            assert(e2 == e.push(f));
            assert(self.eps@[i as int]@ =~= seq![start]);
        }
        (i, f)
    }

    /// Zero or more repetitions: as one or more, with a fresh start that may
    /// also skip straight to the fresh end.
    fn handle_star(&mut self, child: (usize, usize)) -> (r: (usize, usize))
        requires
            old(self).wf(),
            child.0 < old(self).ncount,
            child.1 < old(self).ncount,
        ensures
            final(self).wf(),
            grows(old(self), final(self)),
            r == (old(self).ncount, (old(self).ncount + 1) as usize),
            final(self).ncount == old(self).ncount + 2,
            final(self).accepts@ == old(self).accepts@.push(0).push(0),
            final(self).eps@[r.0 as int]@ == seq![child.0, r.1],
            final(self).eps@[child.1 as int]@.contains(child.0),
            final(self).eps@[child.1 as int]@.contains(r.1),
            final(self).eps@[child.1 as int]@ == old(self).eps@[child.1 as int]@.push(child.0).push(r.1),
            forall|b: int| 0 <= b < 256 ==> #[trigger] final(self).jumps@[r.0 as int][b] == NULL,
            final(self).frames(old(self), child.1 as int, -1),
            final(self).no_edge_from(r.1 as int),
    {
        let (start, end) = child;
        let i = self.make_node();
        let f = self.make_node();
        self.add_eps(i, start);
        self.add_eps(i, f);
        self.add_eps(end, start);
        let ghost e = self.eps@[end as int]@;
        assert(e.contains(start)) by { assert(e[e.len() - 1] == start); }
        self.add_eps(end, f);
        proof {
            let e2 = self.eps@[end as int]@;
            assert(e2[e2.len() - 1] == f);
            assert(e2 == e.push(f));
            assert(self.eps@[i as int]@ =~= seq![start, f]);
        }
        (i, f)
    }

    /// The fragment of a pattern tree, as its start and end states. The
    /// fragment is made of fresh states only; older states are untouched.
    fn build(&mut self, ast: &Node) -> (r: (usize, usize))
        requires
            old(self).wf(),
            ast.wf(),
        ensures
            final(self).wf(),
            grows(old(self), final(self)),
            r.0 < final(self).ncount,
            r.1 < final(self).ncount,
            final(self).keeps_below(old(self), old(self).ncount as int),
            final(self).fragment(old(self).ncount as int, r),
            forall|s: int| old(self).ncount <= s < final(self).ncount ==> #[trigger] final(self).accepts@[s] == 0,
            recognizes(final(self), r, *ast),
            final(self).ncount == old(self).ncount + nstates(*ast),
            single_byte_rows(final(self), r, *ast),
        decreases ast,
    {
        let ghost n = self.ncount as int;
        let ghost s0 = *self;
        match ast {
            Node::BinaryExpr(node) => {
                let left = self.build(&node.left);
                let ghost s1 = *self;
                let ghost m = self.ncount as int;
                let right = self.build(&node.right);
                let ghost s2 = *self;
                proof {
                    lemma_compose(&s0, &s1, &s2, n, m);
                    lemma_no_edge_into_kept(&s1, &s2, m, left.0 as int);
                    lemma_no_edge_from_kept(&s1, &s2, m, left.1 as int);
                    lemma_within(&s1, n);
                    lemma_within(&s2, m);
                    lemma_within_kept(&s1, &s2, n, m);
                    lemma_recognizes_kept(&s1, &s2, n, m, left, *node.left);
                }
                match node.op {
                    Op::BAR => {
                        let r = self.handle_bar(left, right);
                        proof {
                            lemma_fresh_pair(&s2, self, n, r, left.1 as int, right.1 as int);
                            let h = *self;
                            let f = r.1 as int;
                            assert(h.eps@[left.1 as int]@ =~= seq![r.1]);
                            assert(h.eps@[right.1 as int]@ =~= seq![r.1]);
                            assert(s2.eps@[left.1 as int]@.len() == 0);
                            assert(s2.eps@[right.1 as int]@.len() == 0);
                            lemma_extends_pushed(&s2, &h, left.1 as int, right.1 as int);
                            lemma_exit_lang(&s2, &h, n, m, left, *node.left, f);
                            lemma_exit_lang(&s2, &h, m, s2.ncount as int, right, *node.right, f);
                            assert forall|w: Seq<u8>| #[trigger] reaches(&h, r.0 as int, w, f) == in_language(*ast, w) by {
                                lemma_start(&h, r.0 as int, f, w);
                                assert(reaches(&h, h.eps@[r.0 as int]@[0] as int, w, f) == in_language(*node.left, w));
                                assert(reaches(&h, h.eps@[r.0 as int]@[1] as int, w, f) == in_language(*node.right, w));
                            }
                        }
                        r
                    },
                    Op::DASH => {
                        let lo = node.left.char();
                        let hi = node.right.char();
                        let r = self.handle_dash(lo, hi);
                        proof {
                            lemma_fresh_pair(&s2, self, n, r, -1, -1);
                            let h = *self;
                            let set = Set::new(|b: int| lo as int <= b <= hi as int);
                            lemma_single(&h, r.0 as int, r.1 as int, set);
                            assert forall|w: Seq<u8>| #[trigger] reaches(&h, r.0 as int, w, r.1 as int) == in_language(*ast, w) by {
                            }
                        }
                        r
                    },
                    _ => {
                        assert(node.op == Op::AND);
                        let r = self.handle_add(left, right, Ghost(n), Ghost(m), Ghost(*ast));
                        proof {
                            lemma_swap_fragment(&s2, self, n, left, right);
                        }
                        r
                    },
                }
            },
            Node::UnaryExpr(node) => {
                let child = self.build(&node.child);
                let ghost s1 = *self;
                let r = match node.op {
                    Op::STAR => self.handle_star(child),
                    Op::PLUS => self.handle_plus(child),
                    _ => self.handle_question(child),
                };
                proof {
                    lemma_fresh_pair(&s1, self, n, r, child.1 as int, -1);
                    lemma_within(&s1, n);
                    let h = *self;
                    let f = r.1 as int;
                    let m = s1.ncount as int;
                    assert(s1.eps@[child.1 as int]@.len() == 0);
                    lemma_extends_pushed(&s1, &h, child.1 as int, -1);
                    if node.op == Op::QUESTION {
                        assert(h.eps@[child.1 as int]@ =~= seq![r.1]);
                        lemma_exit_lang(&s1, &h, n, m, child, *node.child, f);
                        assert forall|w: Seq<u8>| #[trigger] reaches(&h, r.0 as int, w, f) == in_language(*ast, w) by {
                            lemma_start(&h, r.0 as int, f, w);
                            lemma_end(&h, f, w);
                            let e = h.eps@[r.0 as int]@;
                            assert(e[0] == child.0 && e[1] == r.1 && e.len() == 2);
                            assert(reaches(&h, e[0] as int, w, f) == in_language(*node.child, w));
                        }
                    } else if node.op == Op::STAR {
                        assert(h.eps@[child.1 as int]@ =~= seq![child.0, r.1]);
                        lemma_loop_lang(&s1, &h, n, m, child, *ast, f);
                        assert forall|w: Seq<u8>| #[trigger] reaches(&h, r.0 as int, w, f) == in_language(*ast, w) by {
                            lemma_start(&h, r.0 as int, f, w);
                            lemma_end(&h, f, w);
                            let e = h.eps@[r.0 as int]@;
                            assert(e[0] == child.0 && e[1] == r.1 && e.len() == 2);
                            assert(reaches(&h, e[0] as int, w, f) == repeated(*ast, w));
                        }
                    } else {
                        assert(h.eps@[child.1 as int]@ =~= seq![child.0, r.1]);
                        lemma_loop_lang(&s1, &h, n, m, child, *ast, f);
                        assert forall|w: Seq<u8>| #[trigger] reaches(&h, r.0 as int, w, f) == in_language(*ast, w) by {
                            lemma_start(&h, r.0 as int, f, w);
                            let e = h.eps@[r.0 as int]@;
                            assert(e[0] == child.0 && e.len() == 1);
                            assert(reaches(&h, e[0] as int, w, f) == repeated(*ast, w));
                        }
                    }
                }
                r
            },
            Node::Char(c) => {
                let r = self.handle_char(*c);
                proof {
                    lemma_fresh_pair(&s0, self, n, r, -1, -1);
                    let h = *self;
                    let set = set![*c as int];
                    lemma_single(&h, r.0 as int, r.1 as int, set);
                    assert forall|w: Seq<u8>| #[trigger] reaches(&h, r.0 as int, w, r.1 as int) == in_language(*ast, w) by {
                    }
                }
                r
            },
        }
    }

    /// Builds a named pattern, marks its end with its label, and returns its start.
    fn build_ast(nfa: &mut NFA, m: &Match) -> (r: usize)
        requires
            old(nfa).wf(),
            old(nfa).ncount > 0,
            m.root.wf(),
        ensures
            final(nfa).wf(),
            final(nfa).ncount >= old(nfa).ncount,
            final(nfa).labels@ == old(nfa).labels@.push(m.name),
            final(nfa).keeps_below(old(nfa), old(nfa).ncount as int),
            old(nfa).ncount <= r < final(nfa).ncount,
            exists|e: int|
                old(nfa).ncount <= e < final(nfa).ncount && #[trigger] final(nfa).accepts@[e] == final(nfa).labels@.len()
                    && forall|s: int| old(nfa).ncount <= s < final(nfa).ncount && s != e ==> #[trigger] final(nfa).accepts@[s] == 0,
            exists|e: int|
                #[trigger] pattern_at(final(nfa), final(nfa).labels@.len() - 1, r as int, m.root, old(nfa).ncount as int, final(nfa).ncount as int, e),
    {
        let (start, end) = nfa.build(&m.root);
        let ghost built = *nfa;
        nfa.label(end, m.name.clone());
        proof {
            assert forall|s: int| 0 <= s < old(nfa).ncount implies #[trigger] nfa.accepts@[s] == old(nfa).accepts@[s] by {
                assert(nfa.accepts@[s] == built.accepts@[s]);
            }
            let e = end as int;
            assert(nfa.accepts@[e] == nfa.labels@.len());
            let lo = old(nfa).ncount as int;
            let hi = nfa.ncount as int;
            if lo > 0 {
                lemma_within(&built, lo);
                assert(within(&nfa, lo, hi));
                assert(same_rows(&built, &nfa, lo, hi, -1));
                lemma_recognizes_kept(&built, &nfa, lo, hi, (start, end), m.root);
                assert(nfa.jumps@ == built.jumps@ && nfa.eps@ == built.eps@);
                assert(single_byte_rows(&nfa, (start, end), m.root));
                assert(pattern_at(&nfa, nfa.labels@.len() - 1, start as int, m.root, lo, hi, e));
            }
            assert forall|s: int| old(nfa).ncount <= s < nfa.ncount && s != e implies #[trigger] nfa.accepts@[s] == 0 by {
                assert(nfa.accepts@[s] == built.accepts@[s]);
            }
        }
        start
    }

    /// Whitespace: a self-loop on the root for every byte of the pattern.
    fn handle_whitespace(&mut self, ast: &Node)
        requires
            old(self).wf(),
            old(self).ncount > 0,
            ast.is_whitespace_shape(),
        ensures
            final(self).wf(),
            grows(old(self), final(self)),
            final(self).ncount == old(self).ncount,
            final(self).eps@ == old(self).eps@,
            final(self).accepts@ == old(self).accepts@,
            final(self).jumps@.len() == old(self).jumps@.len(),
            forall|s: int| 0 < s < old(self).ncount ==> #[trigger] final(self).jumps@[s] == old(self).jumps@[s],
            forall|b: int|
                0 <= b < 256 ==> #[trigger] final(self).jumps@[0][b] == if whitespace_bytes(*ast).contains(b) {
                    0
                } else {
                    old(self).jumps@[0][b]
                },
        decreases ast,
    {
        match ast {
            Node::BinaryExpr(node) => {
                self.handle_whitespace(&node.left);
                self.handle_whitespace(&node.right);
            },
            Node::Char(c) => self.add(0, 0, *c),
            Node::UnaryExpr(_) => {},
        }
    }

    /// The automaton of a list of patterns: the root reaches every named
    /// pattern by an epsilon edge, whose end is labelled with its name; the
    /// whitespace pattern becomes self-loops on the root.
    pub fn build_from_matches(matches: &Vec<Match>) -> (r: NFA)
        requires
            forall|k: int| 0 <= k < matches@.len() ==> (#[trigger] matches@[k]).wf(),
        ensures
            r.wf(),
            r.ncount > 0,
            r.labels@ == pattern_names(matches@),
            r.accepts@[0] == 0,
            forall|k: int| 1 <= k <= r.labels@.len() ==> #[trigger] labelled(&r, k),
            forall|q1: int, q2: int|
                0 <= q1 < r.ncount && 0 <= q2 < r.ncount && #[trigger] r.accepts@[q1] == #[trigger] r.accepts@[q2]
                    && r.accepts@[q1] != 0 ==> q1 == q2,
            r.eps@[0]@.len() == r.labels@.len(),
            forall|k: int| 0 <= k < r.eps@[0]@.len() ==> #[trigger] r.eps@[0]@[k] > 0,
            all_patterns(&r, named_roots(matches@)),
            exists|b: Seq<(int, int, int)>|
                #[trigger] laid_out(&r, named_roots(matches@), b) && root_language(&r, named_roots(matches@), b, whitespace_of(matches@)),
            forall|b: int|
                0 <= b < 256 ==> #[trigger] r.jumps@[0][b] == if whitespace_of(matches@).contains(b) {
                    0
                } else {
                    NULL
                },
    {
        let mut nfa = NFA::new();
        let root = nfa.make_node();
        let ghost mut bounds: Seq<(int, int, int)> = Seq::empty();
        for idx in 0..matches.len()
            invariant
                nfa.wf(),
                nfa.ncount > 0,
                root == 0,
                forall|k: int| 0 <= k < matches@.len() ==> (#[trigger] matches@[k]).wf(),
                nfa.labels@ == pattern_names(matches@.subrange(0, idx as int)),
                nfa.accepts@[0] == 0,
                forall|k: int| 1 <= k <= nfa.labels@.len() ==> #[trigger] labelled(&nfa, k),
                forall|q1: int, q2: int|
                    0 <= q1 < nfa.ncount && 0 <= q2 < nfa.ncount && #[trigger] nfa.accepts@[q1] == #[trigger] nfa.accepts@[q2]
                        && nfa.accepts@[q1] != 0 ==> q1 == q2,
                nfa.eps@[0]@.len() == nfa.labels@.len(),
                forall|k: int| 0 <= k < nfa.eps@[0]@.len() ==> #[trigger] nfa.eps@[0]@[k] > 0,
                named_roots(matches@.subrange(0, idx as int)).len() == nfa.labels@.len(),
                all_patterns(&nfa, named_roots(matches@.subrange(0, idx as int))),
                laid_out(&nfa, named_roots(matches@.subrange(0, idx as int)), bounds),
                forall|b: int|
                    0 <= b < 256 ==> #[trigger] nfa.jumps@[0][b] == if whitespace_of(matches@.subrange(0, idx as int)).contains(b) {
                        0
                    } else {
                        NULL
                    },
        {
            let m = &matches[idx];
            proof {
                assert(matches@.subrange(0, idx + 1).drop_last() =~= matches@.subrange(0, idx as int));
            }
            let ghost before = nfa;
            if m.name.as_str().is_empty() {
                nfa.handle_whitespace(&m.root);
                proof {
                    assert(named_roots(matches@.subrange(0, idx + 1)) == named_roots(matches@.subrange(0, idx as int)));
                    assert forall|j: int| 0 <= j < nfa.eps@[0]@.len() implies #[trigger] starts_pattern(&nfa, j, named_roots(matches@.subrange(0, idx + 1))[j]) by {
                        let rt = named_roots(matches@.subrange(0, idx as int))[j];
                        assert(starts_pattern(&before, j, rt));
                        let (lo, hi, e) = choose|lo: int, hi: int, e: int| #[trigger] pattern_at(&before, j, before.eps@[0]@[j] as int, rt, lo, hi, e);
                        lemma_pattern_kept(&before, &nfa, j, before.eps@[0]@[j] as int, rt, lo, hi, e);
                    }
                    let rts = named_roots(matches@.subrange(0, idx as int));
                    assert forall|j: int| 0 <= j < bounds.len() implies #[trigger] pattern_at(&nfa, j, nfa.eps@[0]@[j] as int, rts[j], bounds[j].0, bounds[j].1, bounds[j].2) by {
                        assert(pattern_at(&before, j, before.eps@[0]@[j] as int, rts[j], bounds[j].0, bounds[j].1, bounds[j].2));
                        lemma_pattern_kept(&before, &nfa, j, before.eps@[0]@[j] as int, rts[j], bounds[j].0, bounds[j].1, bounds[j].2);
                    }
                    assert forall|k: int| 1 <= k <= nfa.labels@.len() implies #[trigger] labelled(&nfa, k) by {
                        assert(labelled(&before, k));
                        let q = choose|q: int| 0 <= q < before.ncount && #[trigger] before.accepts@[q] == k;
                        assert(nfa.accepts@[q] == k);
                    }
                }
            } else {
                let node = Self::build_ast(&mut nfa, m);
                let ghost built = nfa;
                proof {
                    let e = choose|e: int|
                        before.ncount <= e < built.ncount && #[trigger] built.accepts@[e] == built.labels@.len()
                            && forall|s: int| before.ncount <= s < built.ncount && s != e ==> #[trigger] built.accepts@[s] == 0;
                    assert forall|q: int| 0 <= q < before.ncount implies #[trigger] built.accepts@[q] == before.accepts@[q] by {}
                    assert forall|k: int| 1 <= k <= built.labels@.len() implies #[trigger] labelled(&built, k) by {
                        if k == built.labels@.len() {
                            assert(built.accepts@[e] == k);
                        } else {
                            assert(labelled(&before, k));
                            let q = choose|q: int| 0 <= q < before.ncount && #[trigger] before.accepts@[q] == k;
                            assert(built.accepts@[q] == k);
                        }
                    }
                    assert forall|q1: int, q2: int|
                        0 <= q1 < built.ncount && 0 <= q2 < built.ncount && #[trigger] built.accepts@[q1] == #[trigger] built.accepts@[q2]
                            && built.accepts@[q1] != 0 implies q1 == q2 by {
                        if q1 < before.ncount && q2 < before.ncount {
                            assert(before.accepts@[q1] == before.accepts@[q2]);
                        } else if q1 < before.ncount {
                            assert(before.accepts@[q1] <= before.labels@.len());
                        } else if q2 < before.ncount {
                            assert(before.accepts@[q2] <= before.labels@.len());
                        }
                    }
                }
                nfa.add_eps(root, node);
                proof {
                    let rts = named_roots(matches@.subrange(0, idx as int));
                    assert(named_roots(matches@.subrange(0, idx + 1)) == rts.push(m.root));
                    let e0 = choose|e: int| #[trigger] pattern_at(&built, built.labels@.len() - 1, node as int, m.root, before.ncount as int, built.ncount as int, e);
                    assert forall|j: int| 0 <= j < nfa.eps@[0]@.len() implies #[trigger] starts_pattern(&nfa, j, named_roots(matches@.subrange(0, idx + 1))[j]) by {
                        if j < before.eps@[0]@.len() {
                            let rt = rts[j];
                            assert(starts_pattern(&before, j, rt));
                            let (lo, hi, e) = choose|lo: int, hi: int, e: int| #[trigger] pattern_at(&before, j, before.eps@[0]@[j] as int, rt, lo, hi, e);
                            lemma_pattern_kept(&before, &built, j, before.eps@[0]@[j] as int, rt, lo, hi, e);
                            lemma_pattern_kept(&built, &nfa, j, before.eps@[0]@[j] as int, rt, lo, hi, e);
                            assert(nfa.eps@[0]@[j] == before.eps@[0]@[j]);
                        } else {
                            lemma_pattern_kept(&built, &nfa, j, node as int, m.root, before.ncount as int, built.ncount as int, e0);
                            assert(nfa.eps@[0]@[j] == node);
                        }
                    }
                    let nb = bounds.push((before.ncount as int, built.ncount as int, e0));
                    let rts2 = named_roots(matches@.subrange(0, idx + 1));
                    assert forall|j: int| 0 <= j < nb.len() implies #[trigger] pattern_at(&nfa, j, nfa.eps@[0]@[j] as int, rts2[j], nb[j].0, nb[j].1, nb[j].2) by {
                        if j < bounds.len() {
                            assert(pattern_at(&before, j, before.eps@[0]@[j] as int, rts[j], bounds[j].0, bounds[j].1, bounds[j].2));
                            lemma_pattern_kept(&before, &built, j, before.eps@[0]@[j] as int, rts[j], bounds[j].0, bounds[j].1, bounds[j].2);
                            lemma_pattern_kept(&built, &nfa, j, before.eps@[0]@[j] as int, rts[j], bounds[j].0, bounds[j].1, bounds[j].2);
                            assert(nfa.eps@[0]@[j] == before.eps@[0]@[j]);
                        } else {
                            lemma_pattern_kept(&built, &nfa, j, node as int, m.root, before.ncount as int, built.ncount as int, e0);
                        }
                    }
                    assert forall|j: int, k: int| 0 <= j < k < nb.len() implies (#[trigger] nb[j]).1 <= (#[trigger] nb[k]).0 by {
                        if k < bounds.len() {
                            assert(nb[j] == bounds[j] && nb[k] == bounds[k]);
                        } else {
                            assert(pattern_at(&before, j, before.eps@[0]@[j] as int, rts[j], bounds[j].0, bounds[j].1, bounds[j].2));
                        }
                    }
                    bounds = nb;
                    assert forall|k: int| 1 <= k <= nfa.labels@.len() implies #[trigger] labelled(&nfa, k) by {
                        assert(labelled(&built, k));
                        let q = choose|q: int| 0 <= q < built.ncount && #[trigger] built.accepts@[q] == k;
                        assert(nfa.accepts@[q] == k);
                    }
                    assert(built.eps@[0] == before.eps@[0]);
                    assert(nfa.eps@[0]@ == before.eps@[0]@.push(node));
                    assert(built.jumps@[0] == before.jumps@[0]);
                    assert(nfa.accepts@[0] == before.accepts@[0]);
                }
            }
            proof {
                assert forall|b: int| 0 <= b < 256 implies #[trigger] nfa.jumps@[0][b] == if whitespace_of(matches@.subrange(0, idx + 1)).contains(b) {
                    0
                } else {
                    NULL
                } by {
                    assert(whitespace_of(matches@.subrange(0, idx + 1)) == if m.name@.len() == 0 {
                        whitespace_of(matches@.subrange(0, idx as int)).union(whitespace_bytes(m.root))
                    } else {
                        whitespace_of(matches@.subrange(0, idx as int))
                    });
                }
            }
        }
        proof {
            assert(matches@.subrange(0, matches@.len() as int) =~= matches@);
            assert(named_roots(matches@.subrange(0, matches@.len() as int)) == named_roots(matches@));
            assert(laid_out(&nfa, named_roots(matches@), bounds));
            lemma_root_lang(&nfa, named_roots(matches@), bounds, whitespace_of(matches@));
        }
        nfa
    }
}

/// The character of a byte value.
fn char_of(c: u32) -> (r: char)
    requires
        c < 256,
    ensures
        r as u32 == c,
{
    (c as u8) as char
}

/// The automaton only gained states and edges into them: labels are kept.
pub open spec fn grows(before: &NFA, after: &NFA) -> bool {
    &&& after.ncount >= before.ncount
    &&& after.labels@ == before.labels@
}

/// The bytes of a whitespace pattern.
pub open spec fn whitespace_bytes(n: Node) -> Set<int>
    decreases n,
{
    match n {
        Node::Char(c) => set![c as int],
        Node::BinaryExpr(b) => whitespace_bytes(*b.left).union(whitespace_bytes(*b.right)),
        Node::UnaryExpr(_) => Set::empty(),
    }
}

/// Root edge `k` of `g` is `start`, the start of a fragment in the states
/// `lo..hi` that reads exactly the language of `root` and ends at `e`,
/// the state with accept label `k + 1`.
pub open spec fn pattern_at(g: &NFA, k: int, start: int, root: Node, lo: int, hi: int, e: int) -> bool {
    &&& 1 <= lo <= start < hi
    &&& lo <= e < hi
    &&& hi <= g.ncount
    &&& within(g, lo, hi)
    &&& g.accepts@[e] == k + 1
    &&& recognizes(g, (start as usize, e as usize), root)
    &&& hi == lo + nstates(root)
    &&& single_byte_rows(g, (start as usize, e as usize), root)
}

/// Root edge `k` of `g` starts a fragment that reads exactly the language
/// of `root`, ending at the state labelled `k + 1`.
pub open spec fn starts_pattern(g: &NFA, k: int, root: Node) -> bool {
    exists|lo: int, hi: int, e: int| #[trigger] pattern_at(g, k, g.eps@[0]@[k] as int, root, lo, hi, e)
}

/// The number of states the construction gives a tree: two per node but
/// for a concatenation, which merges two.
pub open spec fn nstates(n: Node) -> nat
    decreases n,
{
    match n {
        Node::Char(_) => 2,
        Node::BinaryExpr(b) => nstates(*b.left) + nstates(*b.right) + if b.op == Op::AND {
            0nat
        } else {
            2nat
        },
        Node::UnaryExpr(u) => nstates(*u.child) + 2,
    }
}

/// For a one-byte tree `c`, the fragment `r` is two consecutive states
/// with the single transition `r.0 --c--> r.1` and nothing else.
pub open spec fn single_byte_rows(g: &NFA, r: (usize, usize), n: Node) -> bool {
    match n {
        Node::Char(c) => {
            &&& r.1 == r.0 + 1
            &&& forall|b: int| 0 <= b < 256 ==> #[trigger] g.jumps@[r.0 as int][b] == if b == c as int { r.1 } else { NULL }
            &&& g.eps@[r.0 as int]@.len() == 0
            &&& g.no_edge_from(r.1 as int)
        },
        _ => true,
    }
}

/// The fragments of the patterns `roots` lie in the state ranges
/// `b[k].0..b[k].1`, one after another without overlap, each reached by
/// root edge `k` and ending at `b[k].2`, the state labelled `k + 1`.
pub open spec fn laid_out(g: &NFA, roots: Seq<Node>, b: Seq<(int, int, int)>) -> bool {
    &&& b.len() == g.eps@[0]@.len()
    &&& roots.len() == b.len()
    &&& forall|k: int| 0 <= k < b.len() ==> #[trigger] pattern_at(g, k, g.eps@[0]@[k] as int, roots[k], b[k].0, b[k].1, b[k].2)
    &&& forall|j: int, k: int| 0 <= j < k < b.len() ==> (#[trigger] b[j]).1 <= (#[trigger] b[k]).0
    &&& b.len() > 0 ==> b[0].0 == 1
    &&& forall|k: int| 0 < k < b.len() ==> (#[trigger] b[k]).0 == b[k - 1].1
    &&& g.ncount == if b.len() == 0 {
        1
    } else {
        b.last().1
    }
}

/// Root edge `k` of `g` starts the fragment of `roots[k]`, for every `k`.
pub open spec fn all_patterns(g: &NFA, roots: Seq<Node>) -> bool {
    forall|k: int| 0 <= k < g.eps@[0]@.len() ==> #[trigger] starts_pattern(g, k, roots[k])
}

/// A pattern's fragment is kept while its rows and its end's label are.
proof fn lemma_pattern_kept(g: &NFA, h: &NFA, k: int, start: int, root: Node, lo: int, hi: int, e: int)
    requires
        pattern_at(g, k, start, root, lo, hi, e),
        hi <= h.ncount,
        forall|s: int| lo <= s < hi ==> #[trigger] h.jumps@[s] == g.jumps@[s],
        forall|s: int| lo <= s < hi ==> #[trigger] h.eps@[s] == g.eps@[s],
        h.accepts@[e] == g.accepts@[e],
    ensures
        pattern_at(h, k, start, root, lo, hi, e),
{
    assert(same_rows(g, h, lo, hi, -1));
    lemma_recognizes_kept(g, h, lo, hi, (start as usize, e as usize), root);
    if root is Char {
        assert(h.jumps@[start] == g.jumps@[start]);
        assert(h.eps@[start] == g.eps@[start]);
        assert(h.jumps@[e] == g.jumps@[e]);
        assert(h.eps@[e] == g.eps@[e]);
    }
    assert forall|s: int, b: int| lo <= s < hi && 0 <= b < 256 implies #[trigger] h.jumps@[s][b] == NULL || (lo <= h.jumps@[s][b] < hi) by {
        assert(h.jumps@[s] == g.jumps@[s]);
    }
    assert forall|s: int, x: int| lo <= s < hi && 0 <= x < h.eps@[s]@.len() implies lo <= #[trigger] h.eps@[s]@[x] < hi by {
        assert(h.eps@[s] == g.eps@[s]);
    }
}

/// The trees of the named patterns, in order.
pub open spec fn named_roots(ms: Seq<Match>) -> Seq<Node>
    decreases ms.len(),
{
    if ms.len() == 0 {
        Seq::empty()
    } else if ms.last().name@.len() == 0 {
        named_roots(ms.drop_last())
    } else {
        named_roots(ms.drop_last()).push(ms.last().root)
    }
}

/// Some state of `g` carries the accept label `k`.
pub open spec fn labelled(g: &NFA, k: int) -> bool {
    exists|q: int| 0 <= q < g.ncount && #[trigger] g.accepts@[q] == k
}

/// The bytes of all whitespace patterns.
pub open spec fn whitespace_of(ms: Seq<Match>) -> Set<int>
    decreases ms.len(),
{
    if ms.len() == 0 {
        Set::empty()
    } else if ms.last().name@.len() == 0 {
        whitespace_of(ms.drop_last()).union(whitespace_bytes(ms.last().root))
    } else {
        whitespace_of(ms.drop_last())
    }
}

/// The names of the named patterns, in order.
pub open spec fn pattern_names(ms: Seq<Match>) -> Seq<String>
    decreases ms.len(),
{
    if ms.len() == 0 {
        Seq::empty()
    } else if ms.last().name@.len() == 0 {
        pattern_names(ms.drop_last())
    } else {
        pattern_names(ms.drop_last()).push(ms.last().name)
    }
}


/// Building a second fragment after a first keeps the first one's edges
/// among the states from `n` on.
proof fn lemma_compose(a: &NFA, b: &NFA, c: &NFA, n: int, m: int)
    requires
        a.wf(),
        n == a.ncount,
        m == b.ncount,
        b.keeps_below(a, n),
        b.closed_above(n),
        c.keeps_below(b, m),
        c.closed_above(m),
        b.ncount <= c.ncount,
        n <= m,
    ensures
        c.closed_above(n),
        c.keeps_below(a, n),
{
    assert forall|s: int, x: int| n <= s < c.ncount && 0 <= x < 256 implies #[trigger] c.jumps@[s][x] == NULL || c.jumps@[s][x] >= n by {
        if s < m {
            assert(c.jumps@[s] == b.jumps@[s]);
        }
    }
    assert forall|s: int, k: int| n <= s < c.ncount && 0 <= k < c.eps@[s]@.len() implies #[trigger] c.eps@[s]@[k] >= n by {
        if s < m {
            assert(c.eps@[s] == b.eps@[s]);
        }
    }
}

/// A state below `m` that nothing entered still has no edge into it once
/// states from `m` on, whose edges stay among themselves, are added.
proof fn lemma_no_edge_into_kept(b: &NFA, c: &NFA, m: int, t: int)
    requires
        b.wf(),
        c.wf(),
        m == b.ncount,
        m <= c.ncount,
        0 <= t < m,
        b.no_edge_into(t),
        c.keeps_below(b, m),
        c.closed_above(m),
    ensures
        c.no_edge_into(t),
{
    assert forall|s: int, x: int| 0 <= s < c.ncount && 0 <= x < 256 implies #[trigger] c.jumps@[s][x] != t by {
        if s < m {
            assert(c.jumps@[s] == b.jumps@[s]);
        }
    }
    assert forall|s: int, k: int| 0 <= s < c.ncount && 0 <= k < c.eps@[s]@.len() implies #[trigger] c.eps@[s]@[k] != t by {
        if s < m {
            assert(c.eps@[s] == b.eps@[s]);
        }
    }
}

/// A state below `m` without edges keeps none.
proof fn lemma_no_edge_from_kept(b: &NFA, c: &NFA, m: int, t: int)
    requires
        0 <= t < m,
        b.no_edge_from(t),
        c.keeps_below(b, m),
    ensures
        c.no_edge_from(t),
{
    assert(c.jumps@[t] == b.jumps@[t]);
    assert(c.eps@[t] == b.eps@[t]);
}

/// A fresh start and end whose new edges lead into the states from `n` on,
/// on top of an automaton whose states from `n` on keep their edges among
/// themselves, form a fragment.
proof fn lemma_fresh_pair(b: &NFA, c: &NFA, n: int, r: (usize, usize), e1: int, e2: int)
    requires
        b.wf(),
        c.wf(),
        0 <= n <= b.ncount,
        b.closed_above(n),
        r == (b.ncount, (b.ncount + 1) as usize),
        c.ncount == b.ncount + 2,
        c.frames(b, e1, e2),
        e1 == -1 || n <= e1 < b.ncount,
        e2 == -1 || n <= e2 < b.ncount,
        e1 >= 0 ==> forall|k: int| 0 <= k < c.eps@[e1]@.len() ==> #[trigger] c.eps@[e1]@[k] >= n && c.eps@[e1]@[k] != r.0,
        e2 >= 0 ==> forall|k: int| 0 <= k < c.eps@[e2]@.len() ==> #[trigger] c.eps@[e2]@[k] >= n && c.eps@[e2]@[k] != r.0,
        forall|x: int| 0 <= x < 256 ==> #[trigger] c.jumps@[r.0 as int][x] == NULL || c.jumps@[r.0 as int][x] == r.1,
        forall|k: int| 0 <= k < c.eps@[r.0 as int]@.len() ==> #[trigger] c.eps@[r.0 as int]@[k] >= n && c.eps@[r.0 as int]@[k] != r.0,
        c.no_edge_from(r.1 as int),
    ensures
        c.keeps_below(b, n),
        c.fragment(n, r),
{
    assert forall|s: int, x: int| 0 <= s < c.ncount && 0 <= x < 256 implies #[trigger] c.jumps@[s][x] != r.0 by {
        if s < b.ncount {
            assert(c.jumps@[s] == b.jumps@[s]);
        }
    }
    assert forall|s: int, k: int| 0 <= s < c.ncount && 0 <= k < c.eps@[s]@.len() implies #[trigger] c.eps@[s]@[k] != r.0 by {
        if s < b.ncount && s != e1 && s != e2 {
            assert(c.eps@[s] == b.eps@[s]);
        }
    }
    assert forall|s: int, x: int| n <= s < c.ncount && 0 <= x < 256 implies #[trigger] c.jumps@[s][x] == NULL || c.jumps@[s][x] >= n by {
        if s < b.ncount {
            assert(c.jumps@[s] == b.jumps@[s]);
        }
    }
    assert forall|s: int, k: int| n <= s < c.ncount && 0 <= k < c.eps@[s]@.len() implies #[trigger] c.eps@[s]@[k] >= n by {
        if s < b.ncount && s != e1 && s != e2 {
            assert(c.eps@[s] == b.eps@[s]);
        }
    }
}

/// Concatenation by exchanging the rows of the first fragment's end and
/// the second fragment's start yields a fragment.
proof fn lemma_swap_fragment(b: &NFA, c: &NFA, n: int, left: (usize, usize), right: (usize, usize))
    requires
        b.wf(),
        0 <= n <= left.0 < right.0,
        n <= left.1 < right.0,
        right.0 < b.ncount,
        right.1 < b.ncount,
        left.0 < right.1,
        left.1 != right.1,
        right.0 != right.1,
        b.closed_above(n),
        b.no_edge_into(left.0 as int),
        b.no_edge_from(right.1 as int),
        c.ncount == b.ncount,
        c.jumps@ == b.jumps@.update(left.1 as int, b.jumps@[right.0 as int]).update(right.0 as int, b.jumps@[left.1 as int]),
        c.eps@ == b.eps@.update(left.1 as int, b.eps@[right.0 as int]).update(right.0 as int, b.eps@[left.1 as int]),
        c.accepts@ == b.accepts@,
    ensures
        c.keeps_below(b, n),
        c.fragment(n, (left.0, right.1)),
{
    assert forall|s: int, x: int| 0 <= s < c.ncount && 0 <= x < 256 implies #[trigger] c.jumps@[s][x] != left.0 by {
        let t = swapped(s, left.1 as int, right.0 as int);
        lemma_swap_row(b, c, left.1 as int, right.0 as int, s);
    }
    assert forall|s: int, k: int| 0 <= s < c.ncount && 0 <= k < c.eps@[s]@.len() implies #[trigger] c.eps@[s]@[k] != left.0 by {
        let t = swapped(s, left.1 as int, right.0 as int);
        lemma_swap_row(b, c, left.1 as int, right.0 as int, s);
    }
    assert forall|s: int, x: int| n <= s < c.ncount && 0 <= x < 256 implies #[trigger] c.jumps@[s][x] == NULL || c.jumps@[s][x] >= n by {
        let t = swapped(s, left.1 as int, right.0 as int);
        lemma_swap_row(b, c, left.1 as int, right.0 as int, s);
    }
    assert forall|s: int, k: int| n <= s < c.ncount && 0 <= k < c.eps@[s]@.len() implies #[trigger] c.eps@[s]@[k] >= n by {
        let t = swapped(s, left.1 as int, right.0 as int);
        lemma_swap_row(b, c, left.1 as int, right.0 as int, s);
    }
    assert(c.jumps@[right.1 as int] == b.jumps@[right.1 as int]);
    assert(c.eps@[right.1 as int] == b.eps@[right.1 as int]);
}

proof fn lemma_swap_row(b: &NFA, c: &NFA, i: int, j: int, s: int)
    requires
        b.wf(),
        0 <= i < b.ncount,
        0 <= j < b.ncount,
        0 <= s < b.ncount,
        i != j,
        c.jumps@ == b.jumps@.update(i, b.jumps@[j]).update(j, b.jumps@[i]),
        c.eps@ == b.eps@.update(i, b.eps@[j]).update(j, b.eps@[i]),
    ensures
        c.jumps@[s] == b.jumps@[swapped(s, i, j)],
        c.eps@[s] == b.eps@[swapped(s, i, j)],
        0 <= swapped(s, i, j) < b.ncount,
{
    if s == i {
    } else if s == j {
    } else {
    }
}

/// The slot whose row `s` holds after rows `i` and `j` are exchanged.
pub open spec fn swapped(s: int, i: int, j: int) -> int {
    if s == i {
        j
    } else if s == j {
        i
    } else {
        s
    }
}

/// From the root, the end of pattern `k`, the state `b[k].2`, is reached
/// by exactly the words made of whitespace bytes `ws` followed by a word of
/// pattern `k`.
pub open spec fn root_language(g: &NFA, roots: Seq<Node>, b: Seq<(int, int, int)>, ws: Set<int>) -> bool {
    forall|k: int, w: Seq<u8>| 0 <= k < b.len() ==> #[trigger] reaches(g, 0, w, b[k].2) == after_whitespace(roots[k], w, ws)
}

/// `w` is some bytes of `ws` followed by a word of the tree `n`.
pub open spec fn after_whitespace(n: Node, w: Seq<u8>, ws: Set<int>) -> bool {
    exists|i: int|
        0 <= i <= w.len() && (forall|j: int| 0 <= j < i ==> #[trigger] ws.contains(w[j] as int)) && #[trigger] in_language(
            n,
            w.subrange(i, w.len() as int),
        )
}

/// A walk from a region whose edges stay inside it ends inside it.
proof fn lemma_walk_stays(g: &NFA, lo: int, hi: int, x: int, w: Seq<u8>, t: int, k: nat)
    requires
        within(g, lo, hi),
        lo <= x < hi,
        walk(g, x, w, t, k),
    ensures
        lo <= t < hi,
    decreases k,
{
    if !(x == t) {
        lemma_walk_unfold(g, x, w, t, k);
        if eps_any(g, x, w, t, (k - 1) as nat) {
            let j = choose|j: int| 0 <= j < g.eps@[x]@.len() && #[trigger] walk(g, g.eps@[x]@[j] as int, w, t, (k - 1) as nat);
            lemma_walk_stays(g, lo, hi, g.eps@[x]@[j] as int, w, t, (k - 1) as nat);
        } else {
            lemma_walk_stays(g, lo, hi, g.jumps@[x][w[0] as int] as int, w.drop_first(), t, (k - 1) as nat);
        }
    }
}

/// From the root, whose transitions loop on the whitespace bytes and whose
/// epsilon edges enter the laid-out patterns, pattern `k`'s end is reached
/// exactly by whitespace followed by a word of pattern `k`.
proof fn lemma_root_sound(g: &NFA, roots: Seq<Node>, b: Seq<(int, int, int)>, ws: Set<int>, k: int, w: Seq<u8>, n: nat)
    requires
        laid_out(g, roots, b),
        0 <= k < b.len(),
        forall|x: int| 0 <= x < 256 ==> #[trigger] g.jumps@[0][x] == if ws.contains(x) { 0 } else { NULL },
        walk(g, 0, w, b[k].2, n),
    ensures
        after_whitespace(roots[k], w, ws),
    decreases n,
{
    let e = b[k].2;
    assert(pattern_at(g, k, g.eps@[0]@[k] as int, roots[k], b[k].0, b[k].1, b[k].2));
    lemma_walk_unfold(g, 0, w, e, n);
    if eps_any(g, 0, w, e, (n - 1) as nat) {
        let j = choose|j: int| 0 <= j < g.eps@[0]@.len() && #[trigger] walk(g, g.eps@[0]@[j] as int, w, e, (n - 1) as nat);
        assert(pattern_at(g, j, g.eps@[0]@[j] as int, roots[j], b[j].0, b[j].1, b[j].2));
        lemma_walk_stays(g, b[j].0, b[j].1, g.eps@[0]@[j] as int, w, e, (n - 1) as nat);
        if j < k {
            assert(b[j].1 <= b[k].0);
        } else if j > k {
            assert(b[k].1 <= b[j].0);
        }
        lemma_reaches(g, g.eps@[0]@[k] as int, w, e, (n - 1) as nat);
        let st = g.eps@[0]@[k];
        let sti = st as int;
        assert((e as usize) as int == e);
        assert((sti as usize) == st);
        let r = (sti as usize, e as usize);
        assert(recognizes(g, r, roots[k]));
        assert(r.0 as int == sti && r.1 as int == e);
        assert(reaches(g, r.0 as int, w, r.1 as int) == in_language(roots[k], w));
        assert(in_language(roots[k], w.subrange(0, w.len() as int))) by {
            assert(w.subrange(0, w.len() as int) =~= w);
        }
    } else {
        assert(ws.contains(w[0] as int));
        lemma_root_sound(g, roots, b, ws, k, w.drop_first(), (n - 1) as nat);
        let v = w.drop_first();
        let i = choose|i: int|
            0 <= i <= v.len() && (forall|j: int| 0 <= j < i ==> #[trigger] ws.contains(v[j] as int)) && #[trigger] in_language(
                roots[k],
                v.subrange(i, v.len() as int),
            );
        assert(w.subrange(i + 1, w.len() as int) =~= v.subrange(i, v.len() as int));
        assert forall|j: int| 0 <= j < i + 1 implies #[trigger] ws.contains(w[j] as int) by {
            if j > 0 {
                assert(w[j] == v[j - 1]);
            }
        }
    }
}

proof fn lemma_root_complete(g: &NFA, roots: Seq<Node>, b: Seq<(int, int, int)>, ws: Set<int>, k: int, w: Seq<u8>, i: int) -> (n: nat)
    requires
        laid_out(g, roots, b),
        0 <= k < b.len(),
        forall|x: int| 0 <= x < 256 ==> #[trigger] g.jumps@[0][x] == if ws.contains(x) { 0 } else { NULL },
        0 <= i <= w.len(),
        forall|j: int| 0 <= j < i ==> #[trigger] ws.contains(w[j] as int),
        in_language(roots[k], w.subrange(i, w.len() as int)),
    ensures
        walk(g, 0, w, b[k].2, n),
    decreases i,
{
    let e = b[k].2;
    assert(pattern_at(g, k, g.eps@[0]@[k] as int, roots[k], b[k].0, b[k].1, b[k].2));
    if i == 0 {
        assert(w.subrange(0, w.len() as int) =~= w);
        let st = g.eps@[0]@[k];
        let sti = st as int;
        assert((e as usize) as int == e);
        assert((sti as usize) == st);
        let r = (sti as usize, e as usize);
        assert(recognizes(g, r, roots[k]));
        assert(r.0 as int == sti && r.1 as int == e);
        assert(reaches(g, r.0 as int, w, r.1 as int) == in_language(roots[k], w));
        assert(reaches(g, g.eps@[0]@[k] as int, w, e));
        let n = choose|n: nat| #[trigger] walk(g, g.eps@[0]@[k] as int, w, e, n);
        lemma_walk_unfold(g, 0, w, e, n + 1);
        n + 1
    } else {
        let v = w.drop_first();
        assert(ws.contains(w[0] as int));
        assert(v.subrange(i - 1, v.len() as int) =~= w.subrange(i, w.len() as int));
        assert forall|j: int| 0 <= j < i - 1 implies #[trigger] ws.contains(v[j] as int) by {
            assert(v[j] == w[j + 1]);
        }
        let n = lemma_root_complete(g, roots, b, ws, k, v, i - 1);
        lemma_walk_unfold(g, 0, w, e, n + 1);
        n + 1
    }
}

/// Pattern `k`'s end is reached from the root by exactly the words made
/// of whitespace followed by a word of pattern `k`.
proof fn lemma_root_lang(g: &NFA, roots: Seq<Node>, b: Seq<(int, int, int)>, ws: Set<int>)
    requires
        laid_out(g, roots, b),
        forall|x: int| 0 <= x < 256 ==> #[trigger] g.jumps@[0][x] == if ws.contains(x) { 0 } else { NULL },
    ensures
        forall|k: int, w: Seq<u8>|
            0 <= k < b.len() ==> #[trigger] reaches(g, 0, w, b[k].2) == after_whitespace(roots[k], w, ws),
{
    assert forall|k: int, w: Seq<u8>| 0 <= k < b.len() implies #[trigger] reaches(g, 0, w, b[k].2) == after_whitespace(roots[k], w, ws) by {
        if reaches(g, 0, w, b[k].2) {
            let n = choose|n: nat| #[trigger] walk(g, 0, w, b[k].2, n);
            lemma_root_sound(g, roots, b, ws, k, w, n);
        }
        if after_whitespace(roots[k], w, ws) {
            let i = choose|i: int|
                0 <= i <= w.len() && (forall|j: int| 0 <= j < i ==> #[trigger] ws.contains(w[j] as int)) && #[trigger] in_language(
                    roots[k],
                    w.subrange(i, w.len() as int),
                );
            let n = lemma_root_complete(g, roots, b, ws, k, w, i);
            lemma_reaches(g, 0, w, b[k].2, n);
        }
    }
}
} // verus!
