//! Subset construction of a deterministic automaton and its minimisation.
use vstd::prelude::*;

use crate::nfa::{NFA, NULL};

verus! {

broadcast use vstd::seq_lib::lemma_seq_contains_after_push;

/// The number of unvisited flags.
pub open spec fn unvisited(s: Seq<bool>) -> nat
    decreases s.len(),
{
    if s.len() == 0 {
        0
    } else {
        unvisited(s.drop_last()) + if s.last() {
            0nat
        } else {
            1nat
        }
    }
}

proof fn lemma_unvisited_update(s: Seq<bool>, i: int)
    requires
        0 <= i < s.len(),
        !s[i],
    ensures
        unvisited(s.update(i, true)) + 1 == unvisited(s),
    decreases s.len(),
{
    if i == s.len() - 1 {
        assert(s.update(i, true).drop_last() =~= s.drop_last());
    } else {
        lemma_unvisited_update(s.drop_last(), i);
        assert(s.update(i, true).drop_last() =~= s.drop_last().update(i, true));
    }
}

/// Every state of a closed set that lies on an epsilon path from it stays in it.
proof fn lemma_path_stays(nfa: &NFA, p: Seq<usize>, c: Set<usize>, k: int)
    requires
        nfa.wf(),
        nfa.is_eps_path(p),
        c.contains(p[0]),
        forall|x: usize, m: int|
            #![trigger c.contains(x), nfa.eps@[x as int]@[m]]
            c.contains(x) && x < nfa.ncount && 0 <= m < nfa.eps@[x as int]@.len() ==> c.contains(
                nfa.eps@[x as int]@[m],
            ),
        0 <= k < p.len(),
    ensures
        c.contains(p[k]),
    decreases k,
{
    if k > 0 {
        lemma_path_stays(nfa, p, c, k - 1);
        let x = p[k - 1];
        assert(nfa.eps@[x as int]@.contains(p[k]));
        let m = choose|m: int| 0 <= m < nfa.eps@[x as int]@.len() && nfa.eps@[x as int]@[m] == p[k];
        assert(c.contains(nfa.eps@[x as int]@[m]));
    }
}

/// The states that byte `c` leads to from `states`, each once.
fn move_set(nfa: &NFA, states: &Vec<usize>, c: usize) -> (r: Vec<usize>)
    requires
        nfa.wf(),
        c < 256,
        forall|k: int| 0 <= k < states@.len() ==> #[trigger] states@[k] < nfa.ncount,
    ensures
        r@.no_duplicates(),
        forall|k: int| 0 <= k < r@.len() ==> #[trigger] r@[k] < nfa.ncount,
        r@.to_set() == nfa.step(states@.to_set(), c as int),
{
    let ghost src = states@.to_set();
    let mut seen: Vec<bool> = vec![false; nfa.ncount];
    let mut nxt: Vec<usize> = Vec::new();
    for i in 0..states.len()
        invariant
            nfa.wf(),
            c < 256,
            src == states@.to_set(),
            forall|k: int| 0 <= k < states@.len() ==> #[trigger] states@[k] < nfa.ncount,
            seen@.len() == nfa.ncount,
            forall|x: int| 0 <= x < nfa.ncount ==> (#[trigger] seen@[x] <==> nxt@.contains(x as usize)),
            nxt@.no_duplicates(),
            forall|k: int| 0 <= k < nxt@.len() ==> #[trigger] nxt@[k] < nfa.ncount,
            forall|k: int| 0 <= k < nxt@.len() ==> nfa.step(src, c as int).contains(#[trigger] nxt@[k]),
            forall|k: int|
                0 <= k < i && #[trigger] nfa.jumps@[states@[k] as int][c as int] != NULL ==> nxt@.contains(
                    nfa.jumps@[states@[k] as int][c as int],
                ),
    {
        let d = states[i];
        let mv = nfa.jumps[d][c];
        assert(src.contains(d));
        if mv != NULL && !seen[mv] {
            seen[mv] = true;
            nxt.push(mv);
        }
    }
    proof {
        let st = nfa.step(src, c as int);
        assert forall|t: usize| st.contains(t) implies nxt@.to_set().contains(t) by {
            let u = choose|u: usize| src.contains(u) && u < nfa.ncount && nfa.jumps@[u as int][c as int] == t && t != NULL;
            let k = choose|k: int| 0 <= k < states@.len() && states@[k] == u;
        }
        assert forall|t: usize| nxt@.to_set().contains(t) implies st.contains(t) by {
            let k = choose|k: int| 0 <= k < nxt@.len() && nxt@[k] == t;
        }
        assert(nxt@.to_set() =~= st);
    }
    nxt
}

/// The first nonzero accept label of the states `s`, in their order; 0 if none.
pub open spec fn first_accept(accepts: Seq<usize>, s: Seq<usize>) -> usize
    decreases s.len(),
{
    if s.len() == 0 {
        0
    } else if accepts[s[0] as int] != 0 {
        accepts[s[0] as int]
    } else {
        first_accept(accepts, s.drop_first())
    }
}

proof fn lemma_first_accept(accepts: Seq<usize>, s: Seq<usize>)
    ensures
        first_accept(accepts, s) != 0 <==> exists|k: int| 0 <= k < s.len() && #[trigger] accepts[s[k] as int] != 0,
        first_accept(accepts, s) == 0 || exists|k: int|
            0 <= k < s.len() && #[trigger] accepts[s[k] as int] == first_accept(accepts, s),
    decreases s.len(),
{
    if s.len() > 0 {
        lemma_first_accept(accepts, s.drop_first());
        if accepts[s[0] as int] == 0 {
            assert forall|k: int| 0 <= k < s.len() && accepts[s[k] as int] != 0 implies exists|m: int|
                0 <= m < s.drop_first().len() && #[trigger] accepts[s.drop_first()[m] as int] != 0 by {
                assert(s.drop_first()[k - 1] == s[k]);
            }
            if first_accept(accepts, s) != 0 {
                let m = choose|m: int| 0 <= m < s.drop_first().len() && #[trigger] accepts[s.drop_first()[m] as int] == first_accept(accepts, s);
                assert(s[m + 1] == s.drop_first()[m]);
            }
        } else {
            assert(accepts[s[0] as int] != 0);
        }
    }
}

/// Whether two duplicate-free lists of states hold the same states.
fn same_set(a: &Vec<usize>, b: &Vec<usize>, n: usize) -> (r: bool)
    requires
        a@.no_duplicates(),
        b@.no_duplicates(),
        forall|k: int| 0 <= k < a@.len() ==> #[trigger] a@[k] < n,
        forall|k: int| 0 <= k < b@.len() ==> #[trigger] b@[k] < n,
    ensures
        r == (a@.to_set() == b@.to_set()),
{
    proof {
        a@.unique_seq_to_set();
        b@.unique_seq_to_set();
    }
    if a.len() != b.len() {
        return false;
    }
    let mut mark: Vec<bool> = vec![false; n];
    for i in 0..b.len()
        invariant
            mark@.len() == n,
            forall|k: int| 0 <= k < b@.len() ==> #[trigger] b@[k] < n,
            forall|x: int| 0 <= x < n ==> (#[trigger] mark@[x] <==> exists|k: int| 0 <= k < i && b@[k] == x),
    {
        mark[b[i]] = true;
        proof {
            assert forall|x: int| 0 <= x < n implies (#[trigger] mark@[x] <==> exists|k: int| 0 <= k < i + 1 && b@[k] == x) by {
                if x == b@[i as int] {
                    assert(b@[i as int] == x);
                }
            }
        }
    }
    for i in 0..a.len()
        invariant
            a@.len() == b@.len(),
            mark@.len() == n,
            forall|k: int| 0 <= k < a@.len() ==> #[trigger] a@[k] < n,
            forall|x: int| 0 <= x < n ==> (#[trigger] mark@[x] <==> exists|k: int| 0 <= k < b@.len() && b@[k] == x),
            forall|k: int| 0 <= k < i ==> b@.contains(#[trigger] a@[k]),
    {
        if !mark[a[i]] {
            proof {
                assert(a@.to_set().contains(a@[i as int]));
                assert(!b@.to_set().contains(a@[i as int]));
            }
            return false;
        }
    }
    proof {
        assert(a@.to_set().subset_of(b@.to_set()));
        vstd::set_lib::lemma_subset_equality(a@.to_set(), b@.to_set());
    }
    true
}

/// The index of the list in `d_states` that holds the same states as `state`,
/// or `d_states.len()` where none does.
fn find_subset(d_states: &Vec<Vec<usize>>, state: &Vec<usize>, n: usize) -> (r: usize)
    requires
        state@.no_duplicates(),
        forall|k: int| 0 <= k < state@.len() ==> #[trigger] state@[k] < n,
        forall|i: int| 0 <= i < d_states@.len() ==> (#[trigger] d_states@[i])@.no_duplicates(),
        forall|i: int, k: int| 0 <= i < d_states@.len() && 0 <= k < d_states@[i]@.len() ==> #[trigger] d_states@[i]@[k] < n,
    ensures
        r <= d_states@.len(),
        r < d_states@.len() ==> d_states@[r as int]@.to_set() == state@.to_set(),
        r == d_states@.len() ==> forall|i: int| 0 <= i < d_states@.len() ==> (#[trigger] d_states@[i])@.to_set() != state@.to_set(),
{
    for i in 0..d_states.len()
        invariant
            state@.no_duplicates(),
            forall|k: int| 0 <= k < state@.len() ==> #[trigger] state@[k] < n,
            forall|i: int| 0 <= i < d_states@.len() ==> (#[trigger] d_states@[i])@.no_duplicates(),
            forall|i: int, k: int| 0 <= i < d_states@.len() && 0 <= k < d_states@[i]@.len() ==> #[trigger] d_states@[i]@[k] < n,
            forall|j: int| 0 <= j < i ==> (#[trigger] d_states@[j])@.to_set() != state@.to_set(),
    {
        if same_set(&d_states[i], state, n) {
            return i;
        }
    }
    d_states.len()
}

/// `2` to the power `n`.
pub open spec fn two_pow(n: nat) -> nat
    decreases n,
{
    if n == 0 {
        1
    } else {
        2 * two_pow((n - 1) as nat)
    }
}

/// The states below `n`.
pub open spec fn below(n: nat) -> Set<usize> {
    Set::new(|x: usize| x < n)
}

/// A family of sets of states below `n` has at most `2^n` members.
proof fn lemma_family_bound(f: Set<Set<usize>>, n: nat)
    requires
        n <= usize::MAX,
        forall|s: Set<usize>| #[trigger] f.contains(s) ==> s.subset_of(below(n)),
    ensures
        f.finite(),
        f.len() <= two_pow(n),
    decreases n,
{
    if n == 0 {
        let e = Set::<usize>::empty();
        assert forall|s: Set<usize>| #[trigger] f.contains(s) implies set![e].contains(s) by {
            assert(s =~= e);
        }
        vstd::set_lib::lemma_len_subset(f, set![e]);
    } else {
        let k = (n - 1) as usize;
        let m = (n - 1) as nat;
        let a = f.filter(|s: Set<usize>| s.contains(k));
        let b = f.filter(|s: Set<usize>| !s.contains(k));
        assert forall|s: Set<usize>| #[trigger] b.contains(s) implies s.subset_of(below(m)) by {
            assert(s.subset_of(below(n)));
        }
        lemma_family_bound(b, m);
        let rm = |s: Set<usize>| s.remove(k);
        let ins = |s: Set<usize>| s.insert(k);
        let a2 = a.map(rm);
        assert forall|t: Set<usize>| #[trigger] a2.contains(t) implies t.subset_of(below(m)) by {
            let s = choose|s: Set<usize>| a.contains(s) && rm(s) == t;
            assert(s.subset_of(below(n)));
        }
        lemma_family_bound(a2, m);
        assert forall|s: Set<usize>| #[trigger] a.contains(s) implies a2.map(ins).contains(s) by {
            assert(a2.contains(rm(s)));
            assert(ins(rm(s)) =~= s);
        }
        assert forall|s: Set<usize>| #[trigger] a2.map(ins).contains(s) implies a.contains(s) by {
            let t = choose|t: Set<usize>| a2.contains(t) && ins(t) == s;
            let u = choose|u: Set<usize>| a.contains(u) && rm(u) == t;
            assert(ins(rm(u)) =~= u);
        }
        assert(a2.map(ins) =~= a);
        vstd::set_lib::lemma_map_size_bound(a2, a, ins);
        assert(f =~= a.union(b));
        vstd::set_lib::lemma_len_union(a, b);
    }
}

/// Distinct sets of states below `n`, listed, number at most `2^n`.
proof fn lemma_subsets_bound(sets: Seq<Set<usize>>, n: nat)
    requires
        n <= usize::MAX,
        sets.no_duplicates(),
        forall|i: int| 0 <= i < sets.len() ==> (#[trigger] sets[i]).subset_of(below(n)),
    ensures
        sets.len() <= two_pow(n),
{
    let f = sets.to_set();
    assert forall|s: Set<usize>| #[trigger] f.contains(s) implies s.subset_of(below(n)) by {
        let i = choose|i: int| 0 <= i < sets.len() && sets[i] == s;
    }
    lemma_family_bound(f, n);
    sets.unique_seq_to_set();
}

/// A deterministic automaton with a total transition table over bytes and
/// an absorbing, rejecting dead state.
pub struct DFA {
    pub ncount: usize,
    pub jumps: Vec<[usize; 256]>,
    pub accepts: Vec<usize>,
    pub labels: Vec<String>,
    pub dead: usize,
}

/// The sets of states that lists of states hold.
pub open spec fn views(ds: Seq<Vec<usize>>) -> Seq<Set<usize>> {
    ds.map_values(|v: Vec<usize>| v@.to_set())
}

/// Row `d` of `jumps` sends each byte to the list holding the closure of the
/// move from list `d`.
pub open spec fn tracks(nfa: &NFA, jumps: Seq<[usize; 256]>, sets: Seq<Set<usize>>, d: int) -> bool {
    forall|b: int|
        0 <= b < 256 ==> (#[trigger] jumps[d][b]) < sets.len() && sets[jumps[d][b] as int]
            == nfa.closure(nfa.step(sets[d], b))
}

impl DFA {
    /// Tables agree in size, the transition table is total, the dead state
    /// is absorbing and rejecting, and accept labels name patterns.
    pub open spec fn wf(&self) -> bool {
        &&& self.jumps@.len() == self.ncount
        &&& self.accepts@.len() == self.ncount
        &&& self.dead < self.ncount
        &&& forall|s: int, b: int|
            0 <= s < self.ncount && 0 <= b < 256 ==> #[trigger] self.jumps@[s][b] < self.ncount
        &&& forall|b: int| 0 <= b < 256 ==> #[trigger] self.jumps@[self.dead as int][b] == self.dead
        &&& self.accepts@[self.dead as int] == 0
        &&& forall|s: int| 0 <= s < self.ncount ==> #[trigger] self.accepts@[s] <= self.labels@.len()
    }

    /// The state reached from `s` after reading `w`.
    pub open spec fn run(&self, s: int, w: Seq<u8>) -> int
        decreases w.len(),
    {
        if w.len() == 0 {
            s
        } else {
            self.jumps@[self.run(s, w.drop_last())][w.last() as int] as int
        }
    }

    /// The accept label of the state reached from `s` after reading `w`.
    pub open spec fn label_after(&self, s: int, w: Seq<u8>) -> usize {
        self.accepts@[self.run(s, w)]
    }

    /// Some input leads from the start to `s`.
    pub open spec fn reachable(&self, s: int) -> bool {
        exists|w: Seq<u8>| #[trigger] self.run(0, w) == s
    }

    /// The label of the state reached from the start after `w`; 0 rejects.
    pub open spec fn label_of(&self, w: Seq<u8>) -> usize {
        self.label_after(0, w)
    }

    /// From `i` and from `j` every input ends under the same label.
    pub open spec fn equivalent(&self, i: int, j: int) -> bool {
        forall|w: Seq<u8>| #[trigger] self.label_after(i, w) == self.label_after(j, w)
    }

    /// No two states are equivalent.
    pub open spec fn reduced(&self) -> bool {
        forall|i: int, j: int| 0 <= i < j < self.ncount ==> !self.equivalent(i, j)
    }

    /// An automaton without states.
    pub fn new() -> (r: DFA)
        ensures
            r.ncount == 0,
            r.jumps@.len() == 0,
            r.accepts@.len() == 0,
            r.labels@.len() == 0,
            r.dead == 0,
    {
        DFA { ncount: 0, jumps: Vec::new(), accepts: Vec::new(), labels: Vec::new(), dead: 0 }
    }

    /// The states of `set` and every state reachable from them by epsilon edges,
    /// each once, in the order of discovery.
    fn eps_closure(nfa: &NFA, set: Vec<usize>) -> (r: Vec<usize>)
        requires
            nfa.wf(),
            forall|k: int| 0 <= k < set@.len() ==> #[trigger] set@[k] < nfa.ncount,
        ensures
            r@.no_duplicates(),
            forall|k: int| 0 <= k < r@.len() ==> #[trigger] r@[k] < nfa.ncount,
            r@.to_set() == nfa.closure(set@.to_set()),
            set@.no_duplicates() ==> r@.len() >= set@.len() && r@.subrange(0, set@.len() as int) == set@,
    {
        let ghost src = set@.to_set();
        let n = nfa.ncount;
        let mut seen: Vec<bool> = vec![false; n];
        let mut closure: Vec<usize> = Vec::new();
        let mut stack: Vec<usize> = Vec::new();
        for i in 0..set.len()
            invariant
                nfa.wf(),
                n == nfa.ncount,
                src == set@.to_set(),
                forall|k: int| 0 <= k < set@.len() ==> #[trigger] set@[k] < nfa.ncount,
                seen@.len() == n,
                forall|x: int| 0 <= x < n ==> (#[trigger] seen@[x] <==> closure@.contains(x as usize)),
                closure@.no_duplicates(),
                forall|k: int| 0 <= k < closure@.len() ==> #[trigger] closure@[k] < n,
                forall|k: int| 0 <= k < i ==> closure@.contains(#[trigger] set@[k]),
                forall|k: int| 0 <= k < closure@.len() ==> nfa.closure(src).contains(#[trigger] closure@[k]),
                stack@ == closure@,
                set@.no_duplicates() ==> closure@ == set@.subrange(0, i as int),
        {
            let x = set[i];
            proof {
                if set@.no_duplicates() {
                    assert(!closure@.contains(x)) by {
                        if closure@.contains(x) {
                            let k = choose|k: int| 0 <= k < closure@.len() && closure@[k] == x;
                            assert(set@[k] == set@[i as int]);
                        }
                    }
                }
            }
            if !seen[x] {
                seen[x] = true;
                closure.push(x);
                stack.push(x);
                proof {
                    let p = seq![x];
                    assert(nfa.is_eps_path(p));
                    assert(src.contains(p[0]));
                    assert(nfa.closure(src).contains(x));
                }
            }
        }
        assert(set@.no_duplicates() ==> set@.subrange(0, set@.len() as int) =~= set@);
        while stack.len() > 0
            invariant
                nfa.wf(),
                n == nfa.ncount,
                seen@.len() == n,
                forall|x: int| 0 <= x < n ==> (#[trigger] seen@[x] <==> closure@.contains(x as usize)),
                closure@.no_duplicates(),
                forall|k: int| 0 <= k < closure@.len() ==> #[trigger] closure@[k] < n,
                forall|x: usize| src.contains(x) ==> closure@.contains(x),
                forall|k: int| 0 <= k < closure@.len() ==> nfa.closure(src).contains(#[trigger] closure@[k]),
                forall|k: int| 0 <= k < stack@.len() ==> closure@.contains(#[trigger] stack@[k]),
                forall|x: usize, m: int|
                    #![trigger closure@.contains(x), nfa.eps@[x as int]@[m]]
                    closure@.contains(x) && !stack@.contains(x) && 0 <= m < nfa.eps@[x as int]@.len()
                        ==> closure@.contains(nfa.eps@[x as int]@[m]),
                set@.no_duplicates() ==> closure@.len() >= set@.len() && closure@.subrange(0, set@.len() as int) == set@,
            decreases unvisited(seen@), stack@.len(),
        {
            let ghost stack_before = stack@;
            let s = stack.pop().unwrap();
            let ghost stack0 = stack@;
            assert(stack_before =~= stack0.push(s));
            let ghost seen0 = seen@;
            assert(closure@.contains(s));
            let mut k: usize = 0;
            while k < nfa.eps[s].len()
                invariant
                    nfa.wf(),
                    n == nfa.ncount,
                    s < n,
                    closure@.contains(s),
                    seen@.len() == n,
                    forall|x: int| 0 <= x < n ==> (#[trigger] seen@[x] <==> closure@.contains(x as usize)),
                    closure@.no_duplicates(),
                    forall|k: int| 0 <= k < closure@.len() ==> #[trigger] closure@[k] < n,
                    forall|x: usize| src.contains(x) ==> closure@.contains(x),
                    forall|k: int| 0 <= k < closure@.len() ==> nfa.closure(src).contains(#[trigger] closure@[k]),
                    forall|k: int| 0 <= k < stack@.len() ==> closure@.contains(#[trigger] stack@[k]),
                    forall|x: usize, m: int|
                        #![trigger closure@.contains(x), nfa.eps@[x as int]@[m]]
                        closure@.contains(x) && x != s && !stack@.contains(x) && 0 <= m < nfa.eps@[x as int]@.len()
                            ==> closure@.contains(nfa.eps@[x as int]@[m]),
                    forall|m: int| 0 <= m < k ==> closure@.contains(#[trigger] nfa.eps@[s as int]@[m]),
                    k <= nfa.eps@[s as int]@.len(),
                    unvisited(seen@) < unvisited(seen0) || (seen@ == seen0 && stack@.len() == stack0.len()),
                set@.no_duplicates() ==> closure@.len() >= set@.len() && closure@.subrange(0, set@.len() as int) == set@,
                decreases nfa.eps@[s as int]@.len() - k,
            {
                let nbr = nfa.eps[s][k];
                if !seen[nbr] {
                    proof {
                        lemma_unvisited_update(seen@, nbr as int);
                        let p = choose|p: Seq<usize>| nfa.is_eps_path(p) && src.contains(p[0]) && p.last() == s;
                        let q = p.push(nbr);
                        assert(q[q.len() - 2] == s);
                        assert(nfa.eps@[s as int]@[k as int] == nbr);
                        assert(nfa.is_eps_path(q));
                        assert(nfa.closure(src).contains(nbr));
                    }
                    seen[nbr] = true;
                    let ghost c0 = closure@;
                    closure.push(nbr);
                    assert(set@.no_duplicates() ==> closure@.subrange(0, set@.len() as int) =~= c0.subrange(0, set@.len() as int));
                    stack.push(nbr);
                }
                k = k + 1;
            }
        }
        proof {
            let c = closure@.to_set();
            assert forall|x: usize, m: int|
                #![trigger c.contains(x), nfa.eps@[x as int]@[m]]
                c.contains(x) && x < nfa.ncount && 0 <= m < nfa.eps@[x as int]@.len() implies c.contains(
                    nfa.eps@[x as int]@[m],
                ) by {
                assert(closure@.contains(x));
            }
            assert forall|t: usize| nfa.closure(src).contains(t) implies c.contains(t) by {
                let p = choose|p: Seq<usize>| nfa.is_eps_path(p) && src.contains(p[0]) && p.last() == t;
                assert(c.contains(p[0]));
                lemma_path_stays(nfa, p, c, p.len() - 1);
            }
            assert forall|t: usize| c.contains(t) implies nfa.closure(src).contains(t) by {
                let k = choose|k: int| 0 <= k < closure@.len() && closure@[k] == t;
            }
            assert(c =~= nfa.closure(src));
        }
        closure
    }

    /// The accept label of a set of states: the first nonzero label in its order.
    fn is_accept(nfa: &NFA, set: &Vec<usize>) -> (r: usize)
        requires
            nfa.wf(),
            forall|k: int| 0 <= k < set@.len() ==> #[trigger] set@[k] < nfa.ncount,
        ensures
            r == first_accept(nfa.accepts@, set@),
    {
        let mut i: usize = 0;
        assert(set@.skip(0) =~= set@);
        while i < set.len()
            invariant
                nfa.wf(),
                forall|k: int| 0 <= k < set@.len() ==> #[trigger] set@[k] < nfa.ncount,
                i <= set@.len(),
                first_accept(nfa.accepts@, set@) == first_accept(nfa.accepts@, set@.skip(i as int)),
            decreases set@.len() - i,
        {
            let acc = nfa.accepts[set[i]];
            assert(set@.skip(i as int)[0] == set@[i as int]);
            if acc != 0 {
                return acc;
            }
            assert(set@.skip(i as int).drop_first() =~= set@.skip(i + 1));
            i = i + 1;
        }
        0
    }

    /// Subset construction. Each state stands for the epsilon-closed set of
    /// automaton states reached by some input; its label is the first nonzero
    /// label among them. `None` where no input empties the set of states, so
    /// that no dead state exists.
    pub fn subset_construction(nfa: NFA) -> (r: Option<DFA>)
        requires
            nfa.wf(),
            nfa.ncount > 0,
        ensures
            r is Some <==> exists|w: Seq<u8>| #[trigger] nfa.states_after(w) == Set::<usize>::empty(),
            r matches Some(d) ==> {
                &&& d.wf()
                &&& d.labels@ == nfa.labels@
                &&& forall|s: int| 0 <= s < d.ncount ==> #[trigger] d.reachable(s)
                &&& forall|w: Seq<u8>| (#[trigger] d.label_of(w) != 0) == nfa.accepts_word(w)
                &&& forall|w: Seq<u8>|
                    #[trigger] d.label_of(w) == 0 || exists|s: usize|
                        nfa.states_after(w).contains(s) && nfa.accepts@[s as int] == d.label_of(w)
            },
    {
        let n = nfa.ncount;
        let mut init: Vec<usize> = Vec::new();
        init.push(0);
        let start = Self::eps_closure(&nfa, init);
        proof {
            assert(seq![0usize].to_set() =~= set![0usize]);
            assert(Seq::<u8>::empty().len() == 0);
        }
        let mut jumps: Vec<[usize; 256]> = Vec::new();
        jumps.push([NULL; 256]);
        let mut accepts: Vec<usize> = Vec::new();
        accepts.push(Self::is_accept(&nfa, &start));
        let mut d_states: Vec<Vec<usize>> = Vec::new();
        d_states.push(start);
        let mut unmarked: Vec<usize> = Vec::new();
        unmarked.push(0);
        let mut dead: usize = NULL;
        let ghost mut words: Seq<Seq<u8>> = seq![Seq::<u8>::empty()];
        proof {
            lemma_first_accept(nfa.accepts@, d_states@[0]@);
            lemma_subsets_bound(views(d_states@), n as nat);
            let p = seq![0usize];
            assert(nfa.is_eps_path(p));
            assert(set![0usize].contains(p[0]));
            assert(views(d_states@)[0].contains(0usize));
        }
        while unmarked.len() > 0
            invariant
                nfa.wf(),
                n == nfa.ncount,
                n > 0,
                d_states@.len() == jumps@.len(),
                d_states@.len() == accepts@.len(),
                d_states@.len() == words.len(),
                d_states@.len() >= 1,
                d_states@.len() <= usize::MAX,
                d_states@.len() <= two_pow(n as nat),
                forall|d: int| 0 <= d < d_states@.len() ==> (#[trigger] d_states@[d])@.no_duplicates(),
                forall|d: int, k: int|
                    0 <= d < d_states@.len() && 0 <= k < d_states@[d]@.len() ==> #[trigger] d_states@[d]@[k] < n,
                forall|d: int| 0 <= d < d_states@.len() ==> #[trigger] views(d_states@)[d] == nfa.states_after(words[d]),
                views(d_states@).no_duplicates(),
                forall|d: int| 0 <= d < d_states@.len() ==> #[trigger] accepts@[d] == first_accept(nfa.accepts@, d_states@[d]@),
                forall|d: int| 0 <= d < d_states@.len() ==> #[trigger] accepts@[d] <= nfa.labels@.len(),
                words[0].len() == 0,
                forall|k: int| 0 <= k < unmarked@.len() ==> #[trigger] unmarked@[k] < d_states@.len(),
                forall|d: int|
                    0 <= d < d_states@.len() ==> unmarked@.contains(d as usize) || #[trigger] tracks(
                        &nfa,
                        jumps@,
                        views(d_states@),
                        d,
                    ),
                dead == NULL || (dead < d_states@.len() && d_states@[dead as int]@.len() == 0),
                dead == NULL ==> forall|d: int| 0 <= d < d_states@.len() ==> (#[trigger] d_states@[d])@.len() != 0,
            decreases two_pow(n as nat) - d_states@.len(), unmarked@.len(),
        {
            let ghost unmarked_before = unmarked@;
            let index = unmarked.pop().unwrap();
            let ghost unmarked0 = unmarked@;
            let ghost len0 = d_states@.len();
            proof {
                assert(unmarked_before =~= unmarked0.push(index));
                assert forall|d: int|
                    0 <= d < d_states@.len() && d != index && !unmarked0.contains(d as usize) implies #[trigger] tracks(
                        &nfa,
                        jumps@,
                        views(d_states@),
                        d,
                    ) by {
                    vstd::seq_lib::lemma_seq_contains_after_push(unmarked0, index, d as usize);
                }
            }
            for c in 0..256usize
                invariant
                    nfa.wf(),
                    n == nfa.ncount,
                    n > 0,
                    index < d_states@.len(),
                    d_states@.len() == jumps@.len(),
                    d_states@.len() == accepts@.len(),
                    d_states@.len() == words.len(),
                    d_states@.len() >= len0,
                    d_states@.len() <= usize::MAX,
                    d_states@.len() <= two_pow(n as nat),
                    unmarked@.len() >= unmarked0.len(),
                    d_states@.len() > len0 || unmarked@.len() == unmarked0.len(),
                    forall|k: int| 0 <= k < unmarked0.len() ==> unmarked@.contains(#[trigger] unmarked0[k]),
                    forall|d: int| 0 <= d < d_states@.len() ==> (#[trigger] d_states@[d])@.no_duplicates(),
                    forall|d: int, k: int|
                        0 <= d < d_states@.len() && 0 <= k < d_states@[d]@.len() ==> #[trigger] d_states@[d]@[k] < n,
                    forall|d: int| 0 <= d < d_states@.len() ==> #[trigger] views(d_states@)[d] == nfa.states_after(words[d]),
                    views(d_states@).no_duplicates(),
                    forall|d: int| 0 <= d < d_states@.len() ==> #[trigger] accepts@[d] == first_accept(nfa.accepts@, d_states@[d]@),
                    forall|d: int| 0 <= d < d_states@.len() ==> #[trigger] accepts@[d] <= nfa.labels@.len(),
                    words[0].len() == 0,
                    forall|k: int| 0 <= k < unmarked@.len() ==> #[trigger] unmarked@[k] < d_states@.len(),
                    forall|d: int|
                        0 <= d < d_states@.len() && d != index ==> unmarked@.contains(d as usize) || #[trigger] tracks(
                            &nfa,
                            jumps@,
                            views(d_states@),
                            d,
                        ),
                    forall|b: int|
                        0 <= b < c ==> (#[trigger] jumps@[index as int][b]) < d_states@.len()
                            && views(d_states@)[jumps@[index as int][b] as int] == nfa.closure(
                            nfa.step(views(d_states@)[index as int], b),
                        ),
                    dead == NULL || (dead < d_states@.len() && d_states@[dead as int]@.len() == 0),
                    dead == NULL ==> forall|d: int| 0 <= d < d_states@.len() ==> (#[trigger] d_states@[d])@.len() != 0,
            {
                let ghost ds0 = d_states@;
                let ghost jumps0 = jumps@;
                let ghost um0 = unmarked@;
                let nxt = move_set(&nfa, &d_states[index], c);
                let state = Self::eps_closure(&nfa, nxt);
                let ghost target = nfa.closure(nfa.step(views(d_states@)[index as int], c as int));
                assert(state@.to_set() == target);
                let u = find_subset(&d_states, &state, n);
                if u == d_states.len() {
                    let empty = state.len() == 0;
                    let acc = Self::is_accept(&nfa, &state);
                    proof {
                        lemma_first_accept(nfa.accepts@, state@);
                    }
                    accepts.push(acc);
                    d_states.push(state);
                    jumps.push([NULL; 256]);
                    unmarked.push(u);
                    let len_now = d_states.len();
                    assert(u < len_now);
                    if empty {
                        dead = u;
                    }
                    proof {
                        assert(d_states@ =~= ds0.push(state));
                        if dead == NULL {
                            assert forall|d: int| 0 <= d < d_states@.len() implies (#[trigger] d_states@[d])@.len() != 0 by {
                                if d < ds0.len() {
                                    assert(ds0[d] == d_states@[d]);
                                }
                            }
                        }
                        let w = words[index as int].push(c as u8);
                        assert(w.drop_last() =~= words[index as int]);
                        words = words.push(w);
                        assert(views(d_states@) =~= views(ds0).push(target));
                        assert forall|i: int, j: int| 0 <= i < j < views(d_states@).len() implies views(d_states@)[i] != views(d_states@)[j] by {
                            if j == ds0.len() {
                                assert(views(ds0)[i] == ds0[i]@.to_set());
                            }
                        }
                        assert forall|k: int| 0 <= k < unmarked0.len() implies unmarked@.contains(#[trigger] unmarked0[k]) by {
                            assert(um0.contains(unmarked0[k]));
                        }
                        assert forall|d: int| 0 <= d < ds0.len() && d != index && !unmarked@.contains(d as usize) implies #[trigger] tracks(&nfa, jumps@, views(d_states@), d) by {
                            assert(!um0.contains(d as usize));
                            assert(tracks(&nfa, jumps0, views(ds0), d));
                            assert forall|b: int| 0 <= b < 256 implies (#[trigger] jumps@[d][b]) < views(d_states@).len() && views(d_states@)[jumps@[d][b] as int]
                                == nfa.closure(nfa.step(views(d_states@)[d], b)) by {
                                assert(jumps@[d][b] == jumps0[d][b]);
                            }
                        }
                        assert(unmarked@.contains(u));
                        lemma_subsets_bound(views(d_states@), n as nat);
                    }
                }
                let ghost ds1 = d_states@;
                let ghost jumps1 = jumps@;
                jumps[index][c] = u;
                proof {
                    assert forall|d: int| 0 <= d < d_states@.len() && d != index && !unmarked@.contains(d as usize) implies #[trigger] tracks(&nfa, jumps@, views(d_states@), d) by {
                        assert(tracks(&nfa, jumps1, views(ds1), d));
                        assert forall|b: int| 0 <= b < 256 implies (#[trigger] jumps@[d][b]) < views(d_states@).len() && views(d_states@)[jumps@[d][b] as int]
                            == nfa.closure(nfa.step(views(d_states@)[d], b)) by {
                            assert(jumps@[d][b] == jumps1[d][b]);
                        }
                    }
                }
            }
            proof {
                assert(tracks(&nfa, jumps@, views(d_states@), index as int));
            }
        }
        if dead == NULL {
            proof {
                assert forall|w: Seq<u8>| #[trigger] nfa.states_after(w) != Set::<usize>::empty() by {
                    lemma_track_run(&nfa, jumps@, views(d_states@), w);
                    let d = run_table(jumps@, w);
                    assert(d_states@[d]@.len() != 0);
                    assert(d_states@[d]@.to_set().contains(d_states@[d]@[0]));
                }
            }
            return None;
        }
        let r = DFA { ncount: d_states.len(), jumps, accepts, labels: nfa.labels, dead };
        proof {
            assert(r.jumps@.len() == r.ncount);
            assert(r.accepts@.len() == r.ncount);
            assert(r.dead < r.ncount);
            assert forall|s: int, b: int| 0 <= s < r.ncount && 0 <= b < 256 implies #[trigger] r.jumps@[s][b] < r.ncount by {
                assert(tracks(&nfa, r.jumps@, views(d_states@), s));
            }
            assert(first_accept(nfa.accepts@, d_states@[dead as int]@) == 0);
            assert(r.accepts@[r.dead as int] == 0);
            assert(views(d_states@)[dead as int] =~= Set::<usize>::empty());
            assert(nfa.states_after(words[dead as int]) == Set::<usize>::empty());
            assert forall|b: int| 0 <= b < 256 implies #[trigger] r.jumps@[dead as int][b] == dead by {
                assert(tracks(&nfa, r.jumps@, views(d_states@), dead as int));
                let e = Set::<usize>::empty();
                assert(nfa.step(e, b) =~= e);
                assert(nfa.closure(e) =~= e);
                let t = r.jumps@[dead as int][b] as int;
                assert(views(d_states@)[t] == views(d_states@)[dead as int]);
            }
            assert forall|w: Seq<u8>| (#[trigger] r.label_of(w) != 0) == nfa.accepts_word(w) && (r.label_of(w) == 0 || exists|s: usize|
                        nfa.states_after(w).contains(s) && nfa.accepts@[s as int] == r.label_of(w)) by {
                lemma_track_run(&nfa, r.jumps@, views(d_states@), w);
                lemma_run_table(&r, w);
                let d = r.run(0, w);
                let st = d_states@[d]@;
                lemma_first_accept(nfa.accepts@, st);
                if r.label_of(w) != 0 {
                    let k = choose|k: int| 0 <= k < st.len() && #[trigger] nfa.accepts@[st[k] as int] == r.label_of(w);
                    assert(nfa.states_after(w).contains(st[k]));
                }
                if nfa.accepts_word(w) {
                    let s = choose|s: usize| #[trigger] nfa.states_after(w).contains(s) && nfa.accepts@[s as int] != 0;
                    let k = choose|k: int| 0 <= k < st.len() && st[k] == s;
                    assert(nfa.accepts@[st[k] as int] != 0);
                }
            }
        }
        assert(r.wf());
        assert(r.labels@ == nfa.labels@);
        proof {
            assert forall|s: int| 0 <= s < r.ncount implies #[trigger] r.reachable(s) by {
                let w = words[s];
                lemma_track_run(&nfa, r.jumps@, views(d_states@), w);
                lemma_run_table(&r, w);
                let t = r.run(0, w);
                assert(views(d_states@)[t] == views(d_states@)[s]);
            }
        }
        Some(r)
    }
}

/// The row reached from row 0 of `jumps` after reading `w`.
pub open spec fn run_table(jumps: Seq<[usize; 256]>, w: Seq<u8>) -> int
    decreases w.len(),
{
    if w.len() == 0 {
        0
    } else {
        jumps[run_table(jumps, w.drop_last())][w.last() as int] as int
    }
}

proof fn lemma_run_table(d: &DFA, w: Seq<u8>)
    ensures
        d.run(0, w) == run_table(d.jumps@, w),
    decreases w.len(),
{
    if w.len() > 0 {
        lemma_run_table(d, w.drop_last());
    }
}

/// Following a table whose rows all track the closure of the move, the row
/// reached after `w` holds exactly the automaton states reached after `w`.
proof fn lemma_track_run(nfa: &NFA, jumps: Seq<[usize; 256]>, sets: Seq<Set<usize>>, w: Seq<u8>)
    requires
        sets.len() >= 1,
        sets[0] == nfa.states_after(Seq::<u8>::empty()),
        forall|d: int| 0 <= d < sets.len() ==> #[trigger] tracks(nfa, jumps, sets, d),
    ensures
        0 <= run_table(jumps, w) < sets.len(),
        sets[run_table(jumps, w)] == nfa.states_after(w),
    decreases w.len(),
{
    if w.len() == 0 {
        assert(w =~= Seq::<u8>::empty());
    } else {
        lemma_track_run(nfa, jumps, sets, w.drop_last());
        let d = run_table(jumps, w.drop_last());
        assert(tracks(nfa, jumps, sets, d));
        assert(jumps[d][w.last() as int] < sets.len());
    }
}

/// Whether the pair `i`, `j` is marked distinct in a lower-triangular table.
pub open spec fn marked(t: Seq<Vec<bool>>, i: int, j: int) -> bool {
    if i >= j {
        t[i]@[j]
    } else {
        t[j]@[i]
    }
}

/// The number of unmarked cells of a table.
pub open spec fn unmarked_cells(t: Seq<Vec<bool>>) -> nat
    decreases t.len(),
{
    if t.len() == 0 {
        0
    } else {
        unmarked_cells(t.drop_last()) + unvisited(t.last()@)
    }
}

proof fn lemma_unmarked_cells_update(t: Seq<Vec<bool>>, i: int, row: Vec<bool>)
    requires
        0 <= i < t.len(),
        unvisited(row@) + 1 == unvisited(t[i]@),
    ensures
        unmarked_cells(t.update(i, row)) + 1 == unmarked_cells(t),
    decreases t.len(),
{
    if i == t.len() - 1 {
        assert(t.update(i, row).drop_last() =~= t.drop_last());
    } else {
        lemma_unmarked_cells_update(t.drop_last(), i, row);
        assert(t.update(i, row).drop_last() =~= t.drop_last().update(i, row));
    }
}

impl DFA {
    proof fn lemma_run_range(&self, s: int, w: Seq<u8>)
        requires
            self.wf(),
            0 <= s < self.ncount,
        ensures
            0 <= self.run(s, w) < self.ncount,
        decreases w.len(),
    {
        if w.len() > 0 {
            self.lemma_run_range(s, w.drop_last());
        }
    }

    /// Reading `u` then `v` is reading `u + v`.
    proof fn lemma_run_concat(&self, s: int, u: Seq<u8>, v: Seq<u8>)
        ensures
            self.run(s, u + v) == self.run(self.run(s, u), v),
        decreases v.len(),
    {
        if v.len() == 0 {
            assert(u + v =~= u);
        } else {
            self.lemma_run_concat(s, u, v.drop_last());
            assert((u + v).drop_last() =~= u + v.drop_last());
            assert((u + v).last() == v.last());
        }
    }

    /// Equivalent states step to equivalent states.
    proof fn lemma_equivalent_step(&self, x: int, y: int, b: u8)
        requires
            self.equivalent(x, y),
        ensures
            self.equivalent(self.jumps@[x][b as int] as int, self.jumps@[y][b as int] as int),
    {
        assert forall|w: Seq<u8>|
            #[trigger] self.label_after(self.jumps@[x][b as int] as int, w) == self.label_after(
                self.jumps@[y][b as int] as int,
                w,
            ) by {
            let u = seq![b];
            self.lemma_run_concat(x, u, w);
            self.lemma_run_concat(y, u, w);
            assert(u.drop_last() =~= Seq::<u8>::empty());
            assert(u.last() == b);
            assert(self.run(x, u.drop_last()) == x);
            assert(self.run(y, u.drop_last()) == y);
            assert(self.run(x, u) == self.jumps@[x][b as int] as int);
            assert(self.run(y, u) == self.jumps@[y][b as int] as int);
            assert(self.label_after(x, u + w) == self.label_after(y, u + w));
        }
    }

    /// States whose successors under some byte are distinguished are distinguished.
    proof fn lemma_distinct_back(&self, x: int, y: int, b: u8)
        requires
            !self.equivalent(self.jumps@[x][b as int] as int, self.jumps@[y][b as int] as int),
        ensures
            !self.equivalent(x, y),
    {
        if self.equivalent(x, y) {
            self.lemma_equivalent_step(x, y, b);
        }
    }

    proof fn lemma_equivalent_trans(&self, x: int, y: int, z: int)
        requires
            self.equivalent(x, y),
            self.equivalent(y, z),
        ensures
            self.equivalent(x, z),
    {
        assert forall|w: Seq<u8>| #[trigger] self.label_after(x, w) == self.label_after(z, w) by {
            assert(self.label_after(x, w) == self.label_after(y, w));
            assert(self.label_after(y, w) == self.label_after(z, w));
        }
    }

    /// A table closed under steps, whose unmarked pairs share labels, marks
    /// every pair of inequivalent states.
    proof fn lemma_closed_equivalent(&self, t: Seq<Vec<bool>>, i: int, j: int)
        requires
            self.wf(),
            t.len() == self.ncount,
            forall|x: int| 0 <= x < self.ncount ==> (#[trigger] t[x])@.len() == self.ncount,
            closed(self, t),
            0 <= j < self.ncount,
            0 <= i < self.ncount,
            !marked(t, i, j),
        ensures
            self.equivalent(i, j),
    {
        assert forall|w: Seq<u8>| #[trigger] self.label_after(i, w) == self.label_after(j, w) by {
            self.lemma_closed_word(t, i, j, w);
        }
    }

    proof fn lemma_closed_word(&self, t: Seq<Vec<bool>>, i: int, j: int, w: Seq<u8>)
        requires
            self.wf(),
            t.len() == self.ncount,
            forall|x: int| 0 <= x < self.ncount ==> (#[trigger] t[x])@.len() == self.ncount,
            closed(self, t),
            0 <= j < self.ncount,
            0 <= i < self.ncount,
            !marked(t, i, j),
        ensures
            self.label_after(i, w) == self.label_after(j, w),
            !marked(t, self.run(i, w), self.run(j, w)),
        decreases w.len(),
    {
        if w.len() > 0 {
            self.lemma_closed_word(t, i, j, w.drop_last());
            let x = self.run(i, w.drop_last());
            let y = self.run(j, w.drop_last());
            self.lemma_run_range(i, w.drop_last());
            self.lemma_run_range(j, w.drop_last());
            let b = w.last() as int;
            if x >= y {
                assert(!t[x]@[y]);
            } else {
                assert(!t[y]@[x]);
            }
        }
    }
}

/// Unmarked pairs share their label and step to unmarked pairs.
pub open spec fn closed(d: &DFA, t: Seq<Vec<bool>>) -> bool {
    forall|i: int, j: int|
        0 <= j <= i < d.ncount && !(#[trigger] t[i]@[j]) ==> d.accepts@[i] == d.accepts@[j] && forall|b: int|
            0 <= b < 256 ==> !marked(t, #[trigger] d.jumps@[i][b] as int, d.jumps@[j][b] as int)
}

/// The step part of `closed`, for the pairs before row `i`, column `j`.
pub open spec fn closed_upto(d: &DFA, t: Seq<Vec<bool>>, i: int, j: int) -> bool {
    forall|x: int, y: int|
        0 <= y <= x < d.ncount && (x < i || (x == i && y < j)) && !(#[trigger] t[x]@[y]) ==> forall|b: int|
            0 <= b < 256 ==> !marked(t, #[trigger] d.jumps@[x][b] as int, d.jumps@[y][b] as int)
}

/// Marked pairs of the table hold inequivalent states.
pub open spec fn sound_marks(d: &DFA, t: Seq<Vec<bool>>) -> bool {
    forall|x: int, y: int| 0 <= y <= x < d.ncount && #[trigger] t[x]@[y] ==> !d.equivalent(x, y)
}

/// Unmarked pairs of the table share their label.
pub open spec fn same_labels(d: &DFA, t: Seq<Vec<bool>>) -> bool {
    forall|x: int, y: int| 0 <= y <= x < d.ncount && !(#[trigger] t[x]@[y]) ==> d.accepts@[x] == d.accepts@[y]
}

/// The table is square, one row per state.
pub open spec fn square(d: &DFA, t: Seq<Vec<bool>>) -> bool {
    &&& t.len() == d.ncount
    &&& forall|x: int| 0 <= x < d.ncount ==> (#[trigger] t[x])@.len() == d.ncount
}

impl DFA {
    proof fn lemma_equivalent_sym(&self, x: int, y: int)
        requires
            self.equivalent(x, y),
        ensures
            self.equivalent(y, x),
    {
        assert forall|w: Seq<u8>| #[trigger] self.label_after(y, w) == self.label_after(x, w) by {
            assert(self.label_after(x, w) == self.label_after(y, w));
        }
    }

    proof fn lemma_marked_sound(&self, t: Seq<Vec<bool>>, x: int, y: int)
        requires
            self.wf(),
            square(self, t),
            sound_marks(self, t),
            0 <= x < self.ncount,
            0 <= y < self.ncount,
            marked(t, x, y),
        ensures
            !self.equivalent(x, y),
    {
        if x < y {
            assert(t[y]@[x]);
            if self.equivalent(x, y) {
                self.lemma_equivalent_sym(x, y);
            }
        } else {
            assert(t[x]@[y]);
        }
    }

    /// Whether some byte leads `i` and `j` to a pair marked in `table`.
    fn steps_to_marked(&self, table: &Vec<Vec<bool>>, i: usize, j: usize) -> (r: bool)
        requires
            self.wf(),
            square(self, table@),
            i < self.ncount,
            j < self.ncount,
        ensures
            r == exists|b: int| 0 <= b < 256 && #[trigger] marked(table@, self.jumps@[i as int][b] as int, self.jumps@[j as int][b] as int),
    {
        for b in 0..256usize
            invariant
                self.wf(),
                square(self, table@),
                i < self.ncount,
                j < self.ncount,
                forall|c: int| 0 <= c < b ==> !#[trigger] marked(table@, self.jumps@[i as int][c] as int, self.jumps@[j as int][c] as int),
        {
            let mut x = self.jumps[i][b];
            let mut y = self.jumps[j][b];
            if y > x {
                let z = x;
                x = y;
                y = z;
            }
            if table[x][y] {
                assert(marked(table@, self.jumps@[i as int][b as int] as int, self.jumps@[j as int][b as int] as int));
                return true;
            }
        }
        false
    }

    /// Table filling: marks every pair of states that some input tells apart
    /// and no other pair.
    fn distinct_table(&self) -> (table: Vec<Vec<bool>>)
        requires
            self.wf(),
        ensures
            square(self, table@),
            sound_marks(self, table@),
            closed(self, table@),
    {
        let n = self.ncount;
        let mut table: Vec<Vec<bool>> = Vec::new();
        for i in 0..n
            invariant
                self.wf(),
                n == self.ncount,
                table@.len() == i,
                forall|x: int| 0 <= x < i ==> (#[trigger] table@[x])@.len() == n,
                forall|x: int, y: int| 0 <= y <= x < i ==> (#[trigger] table@[x]@[y] <==> self.accepts@[x] != self.accepts@[y]),
        {
            let mut row: Vec<bool> = Vec::new();
            for j in 0..n
                invariant
                    self.wf(),
                    n == self.ncount,
                    i < n,
                    row@.len() == j,
                    forall|y: int| 0 <= y < j && y <= i ==> (#[trigger] row@[y] <==> self.accepts@[i as int] != self.accepts@[y]),
            {
                row.push(j <= i && self.accepts[i] != self.accepts[j]);
            }
            table.push(row);
        }
        proof {
            assert forall|x: int, y: int| 0 <= y <= x < n && #[trigger] table@[x]@[y] implies !self.equivalent(x, y) by {
                let e = Seq::<u8>::empty();
                assert(self.label_after(x, e) != self.label_after(y, e));
            }
        }
        let mut changed = true;
        while changed
            invariant
                self.wf(),
                n == self.ncount,
                square(self, table@),
                sound_marks(self, table@),
                same_labels(self, table@),
                !changed ==> closed_upto(self, table@, n as int, 0),
            decreases unmarked_cells(table@) + if changed {
                1nat
            } else {
                0nat
            },
        {
            changed = false;
            let ghost t0 = table@;
            for i in 0..n
                invariant
                    self.wf(),
                    n == self.ncount,
                    square(self, table@),
                    sound_marks(self, table@),
                    same_labels(self, table@),
                    !changed ==> table@ == t0,
                    changed ==> unmarked_cells(table@) < unmarked_cells(t0),
                    !changed ==> closed_upto(self, table@, i as int, 0),
            {
                for j in 0..i + 1
                    invariant
                        self.wf(),
                        n == self.ncount,
                        i < n,
                        square(self, table@),
                        sound_marks(self, table@),
                        same_labels(self, table@),
                        !changed ==> table@ == t0,
                        changed ==> unmarked_cells(table@) < unmarked_cells(t0),
                        !changed ==> closed_upto(self, table@, i as int, j as int),
                {
                    if !table[i][j] && self.steps_to_marked(&table, i, j) {
                        proof {
                            let b = choose|b: int| 0 <= b < 256 && #[trigger] marked(table@, self.jumps@[i as int][b] as int, self.jumps@[j as int][b] as int);
                            self.lemma_marked_sound(table@, self.jumps@[i as int][b] as int, self.jumps@[j as int][b] as int);
                            self.lemma_distinct_back(i as int, j as int, b as u8);
                            lemma_unvisited_update(table@[i as int]@, j as int);
                        }
                        let ghost tb = table@;
                        table[i][j] = true;
                        proof {
                            lemma_unmarked_cells_update(tb, i as int, table@[i as int]);
                            assert forall|x: int, y: int| 0 <= y <= x < n && #[trigger] table@[x]@[y] implies !self.equivalent(x, y) by {
                                if x != i || y != j {
                                    assert(tb[x]@[y]);
                                }
                            }
                            assert forall|x: int, y: int| 0 <= y <= x < n && !(#[trigger] table@[x]@[y]) implies self.accepts@[x] == self.accepts@[y] by {
                                assert(!tb[x]@[y]);
                            }
                        }
                        changed = true;
                    }
                }
            }
        }
        proof {
            assert forall|i: int, j: int|
                0 <= j <= i < self.ncount && !(#[trigger] table@[i]@[j]) implies self.accepts@[i] == self.accepts@[j] && forall|b: int|
                    0 <= b < 256 ==> !marked(table@, #[trigger] self.jumps@[i][b] as int, self.jumps@[j][b] as int) by {
            }
        }
        table
    }
}

/// The representatives `reps` and the class `id` of every state form a
/// partition of the states of `d` into equivalence classes.
pub open spec fn partition(d: &DFA, reps: Seq<usize>, id: Seq<usize>) -> bool {
    &&& id.len() == d.ncount
    &&& forall|x: int| 0 <= x < d.ncount ==> #[trigger] id[x] < reps.len()
    &&& forall|k: int| 0 <= k < reps.len() ==> #[trigger] reps[k] < d.ncount && id[reps[k] as int] == k
    &&& forall|x: int| 0 <= x < d.ncount ==> d.equivalent(x, #[trigger] reps[id[x] as int] as int)
    &&& forall|k1: int, k2: int|
        0 <= k1 < k2 < reps.len() ==> !d.equivalent(#[trigger] reps[k1] as int, #[trigger] reps[k2] as int)
}

/// `r` is the quotient of `d` by the partition: one state per class, with
/// the representative's label and its transitions mapped to classes.
pub open spec fn quotient(d: &DFA, reps: Seq<usize>, id: Seq<usize>, r: &DFA) -> bool {
    &&& r.ncount == reps.len()
    &&& r.jumps@.len() == reps.len()
    &&& r.accepts@.len() == reps.len()
    &&& forall|k: int, b: int|
        0 <= k < reps.len() && 0 <= b < 256 ==> #[trigger] r.jumps@[k][b] == id[d.jumps@[reps[k] as int][b] as int]
    &&& forall|k: int| 0 <= k < reps.len() ==> #[trigger] r.accepts@[k] == d.accepts@[reps[k] as int]
    &&& r.dead == id[d.dead as int]
    &&& r.labels@ == d.labels@
}

impl DFA {
    proof fn lemma_same_class(&self, reps: Seq<usize>, id: Seq<usize>, x: int, y: int)
        requires
            partition(self, reps, id),
            0 <= x < self.ncount,
            0 <= y < self.ncount,
            self.equivalent(x, y),
        ensures
            id[x] == id[y],
    {
        let rx = reps[id[x] as int] as int;
        let ry = reps[id[y] as int] as int;
        self.lemma_equivalent_sym(x, rx);
        self.lemma_equivalent_trans(rx, x, y);
        self.lemma_equivalent_trans(rx, y, ry);
        if id[x] < id[y] {
            assert(!self.equivalent(rx, ry));
        } else if id[y] < id[x] {
            self.lemma_equivalent_sym(rx, ry);
            assert(!self.equivalent(ry, rx));
        }
    }

    proof fn lemma_quotient_run(&self, reps: Seq<usize>, id: Seq<usize>, r: &DFA, x: int, w: Seq<u8>)
        requires
            self.wf(),
            partition(self, reps, id),
            quotient(self, reps, id, r),
            0 <= x < self.ncount,
        ensures
            r.run(id[x] as int, w) == id[self.run(x, w)],
            0 <= self.run(x, w) < self.ncount,
        decreases w.len(),
    {
        self.lemma_run_range(x, w);
        if w.len() > 0 {
            let w0 = w.drop_last();
            let b = w.last();
            self.lemma_quotient_run(reps, id, r, x, w0);
            let y = self.run(x, w0);
            let ry = reps[id[y] as int] as int;
            self.lemma_equivalent_sym(y, ry);
            self.lemma_equivalent_step(ry, y, b);
            self.lemma_same_class(reps, id, self.jumps@[ry][b as int] as int, self.jumps@[y][b as int] as int);
            assert(r.jumps@[id[y] as int][b as int] == id[self.jumps@[ry][b as int] as int]);
        }
    }

    /// The quotient by a partition into equivalence classes is a well-formed,
    /// reduced automaton that labels every input as `self` does.
    proof fn lemma_quotient(&self, reps: Seq<usize>, id: Seq<usize>, r: &DFA)
        requires
            self.wf(),
            partition(self, reps, id),
            quotient(self, reps, id, r),
            id[0] == 0,
        ensures
            r.wf(),
            forall|w: Seq<u8>| #[trigger] r.label_of(w) == self.label_of(w),
            r.reduced(),
    {
        assert forall|x: int, w: Seq<u8>| 0 <= x < self.ncount implies #[trigger] r.label_after(id[x] as int, w)
            == self.label_after(x, w) by {
            self.lemma_quotient_run(reps, id, r, x, w);
            let y = self.run(x, w);
            let e = Seq::<u8>::empty();
            assert(self.label_after(y, e) == self.label_after(reps[id[y] as int] as int, e));
        }
        assert forall|w: Seq<u8>| #[trigger] r.label_of(w) == self.label_of(w) by {
            assert(r.label_after(id[0] as int, w) == self.label_after(0, w));
        }
        assert forall|s: int, b: int| 0 <= s < r.ncount && 0 <= b < 256 implies #[trigger] r.jumps@[s][b] < r.ncount by {
            assert(r.jumps@[s][b] == id[self.jumps@[reps[s] as int][b] as int]);
        }
        let dd = self.dead as int;
        let rd = reps[id[dd] as int] as int;
        assert forall|b: int| 0 <= b < 256 implies #[trigger] r.jumps@[r.dead as int][b] == r.dead by {
            self.lemma_equivalent_sym(dd, rd);
            self.lemma_equivalent_step(rd, dd, b as u8);
            self.lemma_same_class(reps, id, self.jumps@[rd][b] as int, self.jumps@[dd][b] as int);
        }
        let e = Seq::<u8>::empty();
        assert(self.label_after(dd, e) == self.label_after(rd, e));
        assert forall|s: int| 0 <= s < r.ncount implies #[trigger] r.accepts@[s] <= r.labels@.len() by {
            assert(r.accepts@[s] == self.accepts@[reps[s] as int]);
        }
        assert(r.wf());
        assert forall|k1: int, k2: int| 0 <= k1 < k2 < r.ncount implies !r.equivalent(k1, k2) by {
            let x1 = reps[k1] as int;
            let x2 = reps[k2] as int;
            assert(!self.equivalent(x1, x2));
            let w = choose|w: Seq<u8>| #[trigger] self.label_after(x1, w) != self.label_after(x2, w);
            assert(r.label_after(id[x1] as int, w) == self.label_after(x1, w));
            assert(r.label_after(id[x2] as int, w) == self.label_after(x2, w));
        }
    }

    /// The first state below `i` that `table` does not tell apart from `i`,
    /// or `i` where every one is told apart.
    fn first_unmarked(table: &Vec<Vec<bool>>, i: usize) -> (r: usize)
        requires
            i < table@.len(),
            i <= table@[i as int]@.len(),
        ensures
            r <= i,
            r < i ==> !table@[i as int]@[r as int],
            forall|y: int| 0 <= y < r ==> #[trigger] table@[i as int]@[y],
    {
        let mut j: usize = 0;
        while j < i
            invariant
                j <= i,
                i < table@.len(),
                i <= table@[i as int]@.len(),
                forall|y: int| 0 <= y < j ==> #[trigger] table@[i as int]@[y],
            decreases i - j,
        {
            if !table[i][j] {
                return j;
            }
            j = j + 1;
        }
        i
    }

    /// Minimisation: merges the states that no input tells apart. The
    /// result labels every input as `dfa` does, has no two equivalent
    /// states, and is `dfa` itself where `dfa` has none.
    pub fn compress(dfa: DFA) -> (r: DFA)
        requires
            dfa.wf(),
        ensures
            r.wf(),
            r.labels@ == dfa.labels@,
            forall|w: Seq<u8>| #[trigger] r.label_of(w) == dfa.label_of(w),
            r.reduced(),
            r.ncount <= dfa.ncount,
            exists|reps: Seq<usize>, id: Seq<usize>|
                #[trigger] partition(&dfa, reps, id) && quotient(&dfa, reps, id, &r) && id[0] == 0
                    && forall|x: int, y: int|
                    0 <= x < dfa.ncount && 0 <= y < dfa.ncount ==> (#[trigger] id[x] == #[trigger] id[y]) == dfa.equivalent(x, y),
            dfa.reduced() ==> {
                &&& r.ncount == dfa.ncount
                &&& r.jumps@ == dfa.jumps@
                &&& r.accepts@ == dfa.accepts@
                &&& r.dead == dfa.dead
            },
    {
        let n = dfa.ncount;
        let table = dfa.distinct_table();
        let mut reps: Vec<usize> = Vec::new();
        let mut id: Vec<usize> = Vec::new();
        for i in 0..n
            invariant
                dfa.wf(),
                n == dfa.ncount,
                square(&dfa, table@),
                sound_marks(&dfa, table@),
                closed(&dfa, table@),
                id@.len() == i,
                reps@.len() <= i,
                forall|x: int| 0 <= x < i ==> #[trigger] id@[x] < reps@.len(),
                forall|k: int| 0 <= k < reps@.len() ==> #[trigger] reps@[k] < i && id@[reps@[k] as int] == k,
                forall|x: int| 0 <= x < i ==> dfa.equivalent(x, #[trigger] reps@[id@[x] as int] as int),
                forall|k1: int, k2: int|
                    0 <= k1 < k2 < reps@.len() ==> !dfa.equivalent(#[trigger] reps@[k1] as int, #[trigger] reps@[k2] as int),
                dfa.reduced() ==> reps@.len() == i,
                dfa.reduced() ==> forall|k: int| 0 <= k < i ==> #[trigger] reps@[k] == k,
                dfa.reduced() ==> forall|k: int| 0 <= k < i ==> #[trigger] id@[k] == k,
                i > 0 ==> id@[0] == 0,
        {
            let j = Self::first_unmarked(&table, i);
            if j < i {
                let c = id[j];
                proof {
                    dfa.lemma_closed_equivalent(table@, i as int, j as int);
                    dfa.lemma_equivalent_trans(i as int, j as int, reps@[c as int] as int);
                    if dfa.reduced() {
                        dfa.lemma_equivalent_sym(i as int, j as int);
                    }
                }
                id.push(c);
            } else {
                let c = reps.len();
                proof {
                    if i == 0 && reps@.len() > 0 {
                        assert(reps@[0] < i);
                    }
                    assert forall|k: int| 0 <= k < reps@.len() implies !dfa.equivalent(#[trigger] reps@[k] as int, i as int) by {
                        let y = reps@[k] as int;
                        assert(table@[i as int]@[y]);
                        if dfa.equivalent(y, i as int) {
                            dfa.lemma_equivalent_sym(y, i as int);
                        }
                    }
                    let e = Seq::<u8>::empty();
                    assert forall|w: Seq<u8>| #[trigger] dfa.label_after(i as int, w) == dfa.label_after(i as int, w) by {}
                }
                reps.push(i);
                id.push(c);
            }
        }
        let m = reps.len();
        let mut jumps: Vec<[usize; 256]> = Vec::new();
        let mut accepts: Vec<usize> = Vec::new();
        for k in 0..m
            invariant
                dfa.wf(),
                n == dfa.ncount,
                m == reps@.len(),
                partition(&dfa, reps@, id@),
                jumps@.len() == k,
                accepts@.len() == k,
                forall|k2: int, b: int|
                    0 <= k2 < k && 0 <= b < 256 ==> #[trigger] jumps@[k2][b] == id@[dfa.jumps@[reps@[k2] as int][b] as int],
                forall|k2: int| 0 <= k2 < k ==> #[trigger] accepts@[k2] == dfa.accepts@[reps@[k2] as int],
                dfa.reduced() ==> m == n,
                dfa.reduced() ==> forall|x: int| 0 <= x < n ==> #[trigger] reps@[x] == x,
                dfa.reduced() ==> forall|x: int| 0 <= x < n ==> #[trigger] id@[x] == x,
                n > 0 ==> id@[0] == 0,
        {
            let rep = reps[k];
            let mut row: [usize; 256] = [0; 256];
            for b in 0..256usize
                invariant
                    dfa.wf(),
                    n == dfa.ncount,
                    rep < n,
                    id@.len() == n,
                    forall|c: int| 0 <= c < b ==> #[trigger] row@[c] == id@[dfa.jumps@[rep as int][c] as int],
            {
                row[b] = id[dfa.jumps[rep][b]];
            }
            jumps.push(row);
            accepts.push(dfa.accepts[rep]);
        }
        let dead = id[dfa.dead];
        let ghost d0 = dfa;
        let r = DFA { ncount: m, jumps, accepts, labels: dfa.labels, dead };
        proof {
            d0.lemma_quotient(reps@, id@, &r);
            assert forall|x: int, y: int| 0 <= x < d0.ncount && 0 <= y < d0.ncount implies (#[trigger] id@[x] == #[trigger] id@[y]) == d0.equivalent(x, y) by {
                if d0.equivalent(x, y) {
                    d0.lemma_same_class(reps@, id@, x, y);
                }
                if id@[x] == id@[y] {
                    let rx = reps@[id@[x] as int] as int;
                    assert(d0.equivalent(y, rx));
                    d0.lemma_equivalent_sym(y, rx);
                    d0.lemma_equivalent_trans(x, rx, y);
                }
            }
            assert(partition(&d0, reps@, id@) && quotient(&d0, reps@, id@, &r));
            if d0.reduced() {
                assert forall|k: int| 0 <= k < m implies r.jumps@[k] =~= d0.jumps@[k] by {
                    assert forall|b: int| 0 <= b < 256 implies r.jumps@[k][b] == d0.jumps@[k][b] by {
                        assert(r.jumps@[k][b] == id@[d0.jumps@[reps@[k] as int][b] as int]);
                    }
                }
                assert(r.jumps@ =~= d0.jumps@);
                assert(r.accepts@ =~= d0.accepts@);
            }
        }
        r
    }
}

/// `r` is what minimisation promises for `d`: a well-formed, reduced
/// automaton with the same labels on every input, equal to `d` where `d`
/// is already reduced.
pub open spec fn minimizes(d: &DFA, r: &DFA) -> bool {
    &&& r.wf()
    &&& r.labels@ == d.labels@
    &&& forall|w: Seq<u8>| #[trigger] r.label_of(w) == d.label_of(w)
    &&& r.reduced()
    &&& d.reduced() ==> {
        &&& r.ncount == d.ncount
        &&& r.jumps@ == d.jumps@
        &&& r.accepts@ == d.accepts@
        &&& r.dead == d.dead
    }
}

/// `d` is what subset construction promises for `nfa` where a dead state
/// exists.
pub open spec fn determinizes(nfa: &NFA, d: &DFA) -> bool {
    &&& d.wf()
    &&& d.labels@ == nfa.labels@
    &&& forall|w: Seq<u8>| (#[trigger] d.label_of(w) != 0) == nfa.accepts_word(w)
    &&& forall|w: Seq<u8>|
        #[trigger] d.label_of(w) == 0 || exists|s: usize|
            nfa.states_after(w).contains(s) && nfa.accepts@[s as int] == d.label_of(w)
}

/// Minimising twice changes nothing the second time: the state count,
/// the transition table, the labels and the dead state stay as they are.
pub proof fn lemma_minimize_idempotent(d: &DFA, m: &DFA, mm: &DFA)
    requires
        d.wf(),
        minimizes(d, m),
        minimizes(m, mm),
    ensures
        mm.ncount == m.ncount,
        mm.jumps@ == m.jumps@,
        mm.accepts@ == m.accepts@,
        mm.dead == m.dead,
{
}

/// The dead state is never left and never accepts, whatever is read.
pub proof fn lemma_dead_absorbs(d: &DFA, w: Seq<u8>)
    requires
        d.wf(),
    ensures
        d.run(d.dead as int, w) == d.dead,
        d.label_after(d.dead as int, w) == 0,
    decreases w.len(),
{
    if w.len() > 0 {
        lemma_dead_absorbs(d, w.drop_last());
    }
}

/// The minimised automaton of a pattern set accepts exactly the inputs
/// that the nondeterministic automaton accepts.
pub proof fn lemma_pipeline_language(nfa: &NFA, d: &DFA, m: &DFA, w: Seq<u8>)
    requires
        determinizes(nfa, d),
        minimizes(d, m),
    ensures
        (m.label_of(w) != 0) == nfa.accepts_word(w),
{
    assert(m.label_of(w) == d.label_of(w));
    assert((d.label_of(w) != 0) == nfa.accepts_word(w));
}
} // verus!
