//! Maximal-munch scanning of text with a deterministic automaton: the
//! behaviour of the generated scanner's `next`, run from the tables.
use vstd::prelude::*;

use crate::dfa::DFA;
use crate::text::push_char;

verus! {

/// The state after reading character `c` in state `s`; characters outside
/// the byte alphabet lead to the dead state.
pub open spec fn step_char(d: &DFA, s: int, c: char) -> int {
    if (c as u32) < 256 {
        d.jumps@[s][c as u32 as int] as int
    } else {
        d.dead as int
    }
}

/// The state reached from `s` after reading `w`.
pub open spec fn run_chars(d: &DFA, s: int, w: Seq<char>) -> int
    decreases w.len(),
{
    if w.len() == 0 {
        s
    } else {
        step_char(d, run_chars(d, s, w.drop_last()), w.last())
    }
}

/// The accept label of `chars[from..to]` read from the start state.
pub open spec fn label_of_span(d: &DFA, chars: Seq<char>, from: int, to: int) -> usize {
    d.accepts@[run_chars(d, 0, chars.subrange(from, to))]
}

/// A character the start state skips: one of the whitespace pattern.
pub open spec fn skips(d: &DFA, c: char) -> bool {
    d.dead != 0 && step_char(d, 0, c) == 0
}

/// The first position from `p` on that is not skipped whitespace.
pub open spec fn skip_end(d: &DFA, chars: Seq<char>, p: int) -> int
    decreases chars.len() - p,
{
    if 0 <= p < chars.len() && skips(d, chars[p]) {
        skip_end(d, chars, p + 1)
    } else {
        p
    }
}

/// The number of line breaks in `w`.
pub open spec fn line_breaks(w: Seq<char>) -> nat
    decreases w.len(),
{
    if w.len() == 0 {
        0
    } else {
        line_breaks(w.drop_last()) + if w.last() == '\n' {
            1nat
        } else {
            0nat
        }
    }
}

/// The display column after `w`: a line break returns to column 0, a tab
/// moves to the next multiple of 4, any other character moves one column.
pub open spec fn column_after(w: Seq<char>) -> nat
    decreases w.len(),
{
    if w.len() == 0 {
        0
    } else {
        let c = column_after(w.drop_last());
        if w.last() == '\n' {
            0
        } else if w.last() == '\t' {
            (c + 4 - c % 4) as nat
        } else {
            c + 1
        }
    }
}

/// Where the line holding position `p` starts.
pub open spec fn line_start(chars: Seq<char>, p: int) -> int
    decreases p,
{
    if p <= 0 {
        0
    } else if chars[p - 1] == '\n' {
        p
    } else {
        line_start(chars, p - 1)
    }
}

/// Where the line holding position `p` ends: its line break or the end.
pub open spec fn line_end(chars: Seq<char>, p: int) -> int
    decreases chars.len() - p,
{
    if p < 0 || p >= chars.len() || chars[p] == '\n' {
        p
    } else {
        line_end(chars, p + 1)
    }
}

/// A token: the accept label of the pattern it matched, and its text.
#[derive(Debug)]
pub struct Lexeme {
    pub label: usize,
    pub text: String,
}

/// No pattern matches at the cursor: the line (counted from 1), the
/// display column, and the text of that line.
#[derive(Debug)]
pub struct ScanError {
    pub line: usize,
    pub column: usize,
    pub source_line: String,
}

/// The end of the longest nonempty prefix of `chars[start..]` that ends
/// in an accepting state, with that state; `None` where there is none.
pub fn longest_match(d: &DFA, chars: &Vec<char>, start: usize) -> (r: Option<(usize, usize)>)
    requires
        d.wf(),
        start <= chars@.len(),
    ensures
        r matches Some((e, s)) ==> {
            &&& start < e <= chars@.len()
            &&& s < d.ncount
            &&& s == run_chars(d, 0, chars@.subrange(start as int, e as int))
            &&& d.accepts@[s as int] != 0
            &&& forall|e2: int| e < e2 <= chars@.len() ==> #[trigger] label_of_span(d, chars@, start as int, e2) == 0
        },
        r is None ==> forall|e2: int| start < e2 <= chars@.len() ==> #[trigger] label_of_span(d, chars@, start as int, e2) == 0,
{
    let n = chars.len();
    let mut stk: Vec<usize> = Vec::new();
    let mut state: usize = 0;
    let mut p: usize = start;
    let dead = d.dead;
    let mut stopped = false;
    while p < n && !stopped
        invariant
            d.wf(),
            n == chars@.len(),
            dead == d.dead,
            start <= p <= n,
            p == start + stk@.len(),
            state < d.ncount,
            state == run_chars(d, 0, chars@.subrange(start as int, p as int)),
            stopped ==> state == dead,
            forall|k: int| 0 <= k < stk@.len() ==> #[trigger] stk@[k] == run_chars(d, 0, chars@.subrange(start as int, start + k + 1)),
            forall|k: int| 0 <= k < stk@.len() ==> #[trigger] stk@[k] < d.ncount,
        decreases n - p,
    {
        let c = chars[p];
        let ghost w = chars@.subrange(start as int, p + 1);
        proof {
            assert(w.drop_last() =~= chars@.subrange(start as int, p as int));
        }
        if (c as u32) < 256 {
            state = d.jumps[state][c as u32 as usize];
        } else {
            state = dead;
        }
        stk.push(state);
        p = p + 1;
        stopped = state == dead;
    }
    proof {
        if p < n {
            assert forall|e2: int| p <= e2 <= n implies run_chars(d, 0, #[trigger] chars@.subrange(start as int, e2)) == d.dead by {
                lemma_dead_stays(d, chars@, start as int, p as int, e2);
            }
        }
    }
    let ghost total = stk@.len();
    let ghost all = stk@;
    while stk.len() > 0 && d.accepts[stk[stk.len() - 1]] == 0
        invariant
            d.wf(),
            stk@.len() <= total,
            stk@ == all.subrange(0, stk@.len() as int),
            forall|k: int| 0 <= k < total ==> #[trigger] all[k] < d.ncount,
            forall|k: int| stk@.len() <= k < total ==> d.accepts@[#[trigger] all[k] as int] == 0,
            total == all.len(),
        decreases stk@.len(),
    {
        stk.pop();
        assert(stk@ =~= all.subrange(0, stk@.len() as int));
    }
    proof {
        assert forall|e2: int| start + stk@.len() < e2 <= n implies #[trigger] label_of_span(d, chars@, start as int, e2) == 0 by {
            if e2 <= p {
                let k = e2 - start - 1;
                assert(all[k] == run_chars(d, 0, chars@.subrange(start as int, start + k + 1)));
            } else {
                assert(run_chars(d, 0, chars@.subrange(start as int, e2)) == d.dead);
            }
        }
    }
    if stk.len() == 0 {
        None
    } else {
        let k = stk.len() - 1;
        Some((start + stk.len(), stk[k]))
    }
}

/// Reading from the start state stays among the states.
pub proof fn lemma_run_chars_range(d: &DFA, w: Seq<char>)
    requires
        d.wf(),
    ensures
        0 <= run_chars(d, 0, w) < d.ncount,
    decreases w.len(),
{
    if w.len() > 0 {
        lemma_run_chars_range(d, w.drop_last());
    }
}

/// Once the dead state is reached it is never left.
proof fn lemma_dead_stays(d: &DFA, chars: Seq<char>, start: int, p: int, e: int)
    requires
        d.wf(),
        0 <= start <= p <= e <= chars.len(),
        run_chars(d, 0, chars.subrange(start, p)) == d.dead,
    ensures
        run_chars(d, 0, chars.subrange(start, e)) == d.dead,
    decreases e - p,
{
    if e > p {
        lemma_dead_stays(d, chars, start, p, e - 1);
        assert(chars.subrange(start, e).drop_last() =~= chars.subrange(start, e - 1));
    }
}

/// Scans text with an automaton, one token per call.
pub struct Scanner {
    pub dfa: DFA,
    pub chars: Vec<char>,
    pub pos: usize,
}

impl Scanner {
    /// A scanner at the start of `chars`.
    pub fn new(dfa: DFA, chars: Vec<char>) -> (r: Scanner)
        ensures
            r.dfa == dfa,
            r.chars == chars,
            r.pos == 0,
    {
        Scanner { dfa, chars, pos: 0 }
    }

    /// The next token: after skipping whitespace, the longest prefix of the
    /// rest that some pattern matches, with the label it ends under. `None`
    /// at the end of input; an error, at the line and column of the
    /// cursor, where no prefix matches.
    pub fn next(&mut self) -> (r: Result<Option<Lexeme>, ScanError>)
        requires
            old(self).dfa.wf(),
            old(self).pos <= old(self).chars@.len(),
            old(self).chars@.len() < usize::MAX / 8,
        ensures
            final(self).dfa == old(self).dfa,
            final(self).chars == old(self).chars,
            ({
                let d = &old(self).dfa;
                let cs = old(self).chars@;
                let q = skip_end(d, cs, old(self).pos as int);
                &&& (q == cs.len()) == (r is Ok && r->Ok_0 is None)
                &&& q == cs.len() ==> final(self).pos == q
                &&& r matches Ok(Some(l)) ==> {
                    let e = final(self).pos as int;
                    &&& q < e <= cs.len()
                    &&& l.label == label_of_span(d, cs, q, e)
                    &&& l.label != 0
                    &&& l.text@ == cs.subrange(q, e)
                    &&& forall|e2: int| e < e2 <= cs.len() ==> #[trigger] label_of_span(d, cs, q, e2) == 0
                }
                &&& r is Err <==> (q < cs.len() && forall|e2: int| q < e2 <= cs.len() ==> #[trigger] label_of_span(d, cs, q, e2) == 0)
                &&& r matches Err(err) ==> {
                    &&& final(self).pos == q
                    &&& err.line == line_breaks(cs.subrange(0, q)) + 1
                    &&& err.column == column_after(cs.subrange(0, q))
                    &&& err.source_line@ == cs.subrange(line_start(cs, q), line_end(cs, q))
                }
            }),
    {
        let n = self.chars.len();
        let ghost p0 = self.pos;
        while self.pos < n && self.dfa.dead != 0 && skip_char(&self.dfa, self.chars[self.pos])
            invariant
                self.dfa.wf(),
                n == self.chars@.len(),
                self.dfa == old(self).dfa,
                self.chars == old(self).chars,
                p0 <= self.pos <= n,
                skip_end(&self.dfa, self.chars@, p0 as int) == skip_end(&self.dfa, self.chars@, self.pos as int),
            decreases n - self.pos,
        {
            self.pos = self.pos + 1;
        }
        proof {
            if self.pos < n {
                assert(!skips(&self.dfa, self.chars@[self.pos as int]));
                assert(skip_end(&self.dfa, self.chars@, self.pos as int) == self.pos);
            }
        }
        if self.pos == n {
            return Ok(None);
        }
        match longest_match(&self.dfa, &self.chars, self.pos) {
            Some((e, s)) => {
                let mut text = String::new();
                for i in self.pos..e
                    invariant
                        e <= self.chars@.len(),
                        text@ == self.chars@.subrange(self.pos as int, i as int),
                {
                    push_char(&mut text, self.chars[i]);
                    assert(text@ =~= self.chars@.subrange(self.pos as int, i + 1));
                }
                let label = self.dfa.accepts[s];
                self.pos = e;
                Ok(Some(Lexeme { label, text }))
            },
            None => Err(self.error_here()),
        }
    }

    /// The lexical error at the cursor.
    fn error_here(&self) -> (err: ScanError)
        requires
            self.pos <= self.chars@.len(),
            self.chars@.len() < usize::MAX / 8,
        ensures
            err.line == line_breaks(self.chars@.subrange(0, self.pos as int)) + 1,
            err.column == column_after(self.chars@.subrange(0, self.pos as int)),
            err.source_line@ == self.chars@.subrange(line_start(self.chars@, self.pos as int), line_end(self.chars@, self.pos as int)),
    {
        let cs = &self.chars;
        let p = self.pos;
        let mut lines: usize = 0;
        let mut column: usize = 0;
        let mut start: usize = 0;
        for i in 0..p
            invariant
                p <= cs@.len(),
                cs@.len() < usize::MAX / 8,
                lines == line_breaks(cs@.subrange(0, i as int)),
                column == column_after(cs@.subrange(0, i as int)),
                lines <= i,
                column <= 4 * i,
                start == line_start(cs@, i as int),
                start <= i,
        {
            let c = cs[i];
            proof {
                assert(cs@.subrange(0, i + 1).drop_last() =~= cs@.subrange(0, i as int));
            }
            if c == '\n' {
                lines = lines + 1;
                column = 0;
                start = i + 1;
            } else if c == '\t' {
                column = column + 4 - column % 4;
            } else {
                column = column + 1;
            }
        }
        let mut end: usize = p;
        while end < cs.len() && cs[end] != '\n'
            invariant
                p <= end <= cs@.len(),
                line_end(cs@, p as int) == line_end(cs@, end as int),
            decreases cs@.len() - end,
        {
            end = end + 1;
        }
        let mut source_line = String::new();
        for i in start..end
            invariant
                end <= cs@.len(),
                source_line@ == cs@.subrange(start as int, i as int),
        {
            push_char(&mut source_line, cs[i]);
            assert(source_line@ =~= cs@.subrange(start as int, i + 1));
        }
        ScanError { line: lines + 1, column, source_line }
    }
}

/// Whether the start state skips `c`.
fn skip_char(d: &DFA, c: char) -> (r: bool)
    requires
        d.wf(),
    ensures
        r == (step_char(d, 0, c) == 0),
{
    if (c as u32) < 256 {
        d.jumps[0][c as u32 as usize] == 0
    } else {
        d.dead == 0
    }
}

} // verus!
