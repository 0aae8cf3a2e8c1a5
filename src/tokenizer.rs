//! A scanner as the generator emits it, for keywords `while` and `for`,
//! parentheses and identifiers, with spaces, tabs and line breaks skipped.
use vstd::prelude::*;

use crate::dfa::DFA;
use crate::scanner::{
    column_after, label_of_span, line_breaks, line_end, line_start, run_chars, skip_end, Lexeme, Scanner,
};

verus! {

/// A token of the example language, with its text.
#[derive(Debug, PartialEq, Eq)]
pub enum Token {
    WHILE(String),
    FOR(String),
    LPAR(String),
    RPAR(String),
    IDENT(String),
    EOF,
}

/// No token starts at the cursor: the line (counted from 1), the display
/// column of the cursor, and the text of that line.
#[derive(Debug, PartialEq, Eq)]
pub struct TokenErr {
    pub line: usize,
    pub column: usize,
    pub source_line: String,
}

/// The state whose every transition returns to it.
pub const DEAD: usize = 1;

/// The number of states of the example automaton.
pub const STATES: usize = 13;

/// The name of a token's variant.
pub open spec fn variant_name(t: Token) -> Seq<char> {
    match t {
        Token::WHILE(_) => "WHILE"@,
        Token::FOR(_) => "FOR"@,
        Token::LPAR(_) => "LPAR"@,
        Token::RPAR(_) => "RPAR"@,
        Token::IDENT(_) => "IDENT"@,
        Token::EOF => "EOF"@,
    }
}

/// `t` is the token for the accept label `label` of a match with text `text`.
pub open spec fn is_token_of(t: Token, label: usize, text: Seq<char>) -> bool {
    match t {
        Token::WHILE(s) => label == 1 && s@ == text,
        Token::FOR(s) => label == 2 && s@ == text,
        Token::LPAR(s) => label == 3 && s@ == text,
        Token::RPAR(s) => label == 4 && s@ == text,
        Token::IDENT(s) => label == 5 && s@ == text,
        Token::EOF => false,
    }
}

/// A byte that is an ASCII digit or letter.
pub open spec fn alnum(b: int) -> bool {
    (48 <= b <= 57) || (65 <= b <= 90) || (97 <= b <= 122)
}

/// The transition table of the example automaton: from the start,
/// whitespace loops, `(` and `)` have states of their own, `f` and `w`
/// begin the keywords and other letters an identifier; states 5 to 9 and
/// 11 spell `for` and `while` letter by letter, falling back to the
/// identifier state 4; states 4, 10 and 12 continue with letters and
/// digits; everything else goes to the dead state 1.
pub open spec fn example_jump(s: int, b: int) -> usize {
    if s == 0 {
        if b == 9 || b == 10 || b == 13 || b == 32 {
            0
        } else if b == 40 {
            2
        } else if b == 41 {
            3
        } else if b == 102 {
            5
        } else if b == 119 {
            6
        } else if (65 <= b <= 90) || (97 <= b <= 122) {
            4
        } else {
            1
        }
    } else if s == 4 || s == 10 || s == 12 {
        if alnum(b) {
            4
        } else {
            1
        }
    } else if s == 5 || s == 6 || s == 7 || s == 8 || s == 9 || s == 11 {
        let (k, t) = if s == 5 {
            (111int, 11usize)
        } else if s == 6 {
            (104int, 7usize)
        } else if s == 7 {
            (105int, 8usize)
        } else if s == 8 {
            (108int, 9usize)
        } else if s == 9 {
            (101int, 10usize)
        } else {
            (114int, 12usize)
        };
        if b == k {
            t
        } else if alnum(b) {
            4
        } else {
            1
        }
    } else {
        1
    }
}

/// The accept labels of the example automaton's states.
pub open spec fn example_accepts() -> Seq<usize> {
    seq![0usize, 0, 3, 4, 5, 5, 5, 5, 5, 5, 1, 5, 2]
}

/// `d` is the example automaton.
pub open spec fn is_example(d: &DFA) -> bool {
    &&& d.wf()
    &&& d.ncount == STATES
    &&& d.dead == DEAD
    &&& d.labels@.len() == 5
    &&& d.labels@[0]@ == "WHILE"@
    &&& d.labels@[1]@ == "FOR"@
    &&& d.labels@[2]@ == "LPAR"@
    &&& d.labels@[3]@ == "RPAR"@
    &&& d.labels@[4]@ == "IDENT"@
    &&& d.accepts@ == example_accepts()
    &&& forall|s: int, b: int| 0 <= s < STATES && 0 <= b < 256 ==> #[trigger] d.jumps@[s][b] == example_jump(s, b)
}

/// Sends the bytes `lo..=hi` of state `s` to `t`.
fn set_range(jumps: &mut Vec<[usize; 256]>, s: usize, lo: char, hi: char, t: usize)
    requires
        old(jumps)@.len() == STATES,
        s < STATES,
        s != DEAD,
        t < STATES,
        lo <= hi,
        (hi as u32) < 256,
        forall|x: int, b: int| 0 <= x < STATES && 0 <= b < 256 ==> #[trigger] old(jumps)@[x][b] < STATES,
        forall|b: int| 0 <= b < 256 ==> #[trigger] old(jumps)@[DEAD as int][b] == DEAD,
    ensures
        final(jumps)@.len() == STATES,
        forall|x: int, b: int| 0 <= x < STATES && 0 <= b < 256 ==> #[trigger] final(jumps)@[x][b] < STATES,
        forall|b: int| 0 <= b < 256 ==> #[trigger] final(jumps)@[DEAD as int][b] == DEAD,
        forall|x: int, b: int|
            0 <= x < STATES && 0 <= b < 256 ==> #[trigger] final(jumps)@[x][b] == if x == s && lo as int <= b <= hi as int {
                t
            } else {
                old(jumps)@[x][b]
            },
{
    let mut c: u32 = lo as u32;
    let h: u32 = hi as u32;
    while c <= h
        invariant
            jumps@.len() == STATES,
            s < STATES,
            s != DEAD,
            t < STATES,
            h < 256,
            forall|x: int, b: int| 0 <= x < STATES && 0 <= b < 256 ==> #[trigger] jumps@[x][b] < STATES,
            forall|b: int| 0 <= b < 256 ==> #[trigger] jumps@[DEAD as int][b] == DEAD,
            lo as u32 <= c <= h + 1,
            h == hi as u32,
            forall|x: int, b: int|
                0 <= x < STATES && 0 <= b < 256 ==> #[trigger] jumps@[x][b] == if x == s && lo as int <= b < c {
                    t
                } else {
                    old(jumps)@[x][b]
                },
        decreases h + 1 - c,
    {
        jumps[s][c as usize] = t;
        c = c + 1;
    }
}

/// Sends letters and digits of state `s` to the identifier state, apart
/// from the letter `k`, which goes to `t`.
fn identifier_row(jumps: &mut Vec<[usize; 256]>, s: usize, k: char, t: usize)
    requires
        old(jumps)@.len() == STATES,
        s < STATES,
        s != DEAD,
        t < STATES,
        'a' <= k <= 'z',
        forall|x: int, b: int| 0 <= x < STATES && 0 <= b < 256 ==> #[trigger] old(jumps)@[x][b] < STATES,
        forall|b: int| 0 <= b < 256 ==> #[trigger] old(jumps)@[DEAD as int][b] == DEAD,
    ensures
        final(jumps)@.len() == STATES,
        forall|x: int, b: int| 0 <= x < STATES && 0 <= b < 256 ==> #[trigger] final(jumps)@[x][b] < STATES,
        forall|b: int| 0 <= b < 256 ==> #[trigger] final(jumps)@[DEAD as int][b] == DEAD,
        forall|x: int, b: int|
            0 <= x < STATES && 0 <= b < 256 ==> #[trigger] final(jumps)@[x][b] == if x == s && b == k as int {
                t
            } else if x == s && alnum(b) {
                4
            } else {
                old(jumps)@[x][b]
            },
{
    set_range(jumps, s, '0', '9', 4);
    set_range(jumps, s, 'A', 'Z', 4);
    set_range(jumps, s, 'a', 'z', 4);
    set_range(jumps, s, k, k, t);
}

/// The minimised automaton of the example language: `while` ends in state
/// 10, `for` in 12, `(` in 2, `)` in 3, identifiers elsewhere.
pub fn example_dfa() -> (d: DFA)
    ensures
        is_example(&d),
{
    let mut jumps: Vec<[usize; 256]> = Vec::new();
    for i in 0..STATES
        invariant
            jumps@.len() == i,
            forall|x: int, b: int| 0 <= x < i && 0 <= b < 256 ==> #[trigger] jumps@[x][b] == DEAD,
    {
        let row = [DEAD; 256];
        assert(forall|b: int| 0 <= b < 256 ==> #[trigger] row@[b] == DEAD);
        jumps.push(row);
    }
    set_range(&mut jumps, 0, '\t', '\n', 0);
    set_range(&mut jumps, 0, '\r', '\r', 0);
    set_range(&mut jumps, 0, ' ', ' ', 0);
    set_range(&mut jumps, 0, '(', '(', 2);
    set_range(&mut jumps, 0, ')', ')', 3);
    set_range(&mut jumps, 0, 'A', 'Z', 4);
    set_range(&mut jumps, 0, 'a', 'z', 4);
    set_range(&mut jumps, 0, 'f', 'f', 5);
    set_range(&mut jumps, 0, 'w', 'w', 6);
    set_range(&mut jumps, 4, '0', '9', 4);
    set_range(&mut jumps, 4, 'A', 'Z', 4);
    set_range(&mut jumps, 4, 'a', 'z', 4);
    identifier_row(&mut jumps, 5, 'o', 11);
    identifier_row(&mut jumps, 6, 'h', 7);
    identifier_row(&mut jumps, 7, 'i', 8);
    identifier_row(&mut jumps, 8, 'l', 9);
    identifier_row(&mut jumps, 9, 'e', 10);
    set_range(&mut jumps, 10, '0', '9', 4);
    set_range(&mut jumps, 10, 'A', 'Z', 4);
    set_range(&mut jumps, 10, 'a', 'z', 4);
    identifier_row(&mut jumps, 11, 'r', 12);
    set_range(&mut jumps, 12, '0', '9', 4);
    set_range(&mut jumps, 12, 'A', 'Z', 4);
    set_range(&mut jumps, 12, 'a', 'z', 4);
    proof {
        assert forall|x: int, b: int| 0 <= x < STATES && 0 <= b < 256 implies #[trigger] jumps@[x][b] == example_jump(x, b) by {
        }
    }
    let accepts: Vec<usize> = vec![0, 0, 3, 4, 5, 5, 5, 5, 5, 5, 1, 5, 2];
    let mut labels: Vec<String> = Vec::new();
    labels.push(String::from_str("WHILE"));
    labels.push(String::from_str("FOR"));
    labels.push(String::from_str("LPAR"));
    labels.push(String::from_str("RPAR"));
    labels.push(String::from_str("IDENT"));
    proof {
        reveal_strlit("WHILE");
        reveal_strlit("FOR");
        reveal_strlit("LPAR");
        reveal_strlit("RPAR");
        reveal_strlit("IDENT");
    }
    let d = DFA { ncount: STATES, jumps, accepts, labels, dead: DEAD };
    assert(d.accepts@ =~= example_accepts());
    d
}

/// The scanner of the example language.
pub struct Lexer {
    scanner: Scanner,
}

impl Lexer {
    /// The scanner's automaton, text and cursor.
    pub closed spec fn scanner(&self) -> Scanner {
        self.scanner
    }

    /// The scanner stands on its automaton and within its text.
    pub closed spec fn wf(&self) -> bool {
        &&& is_example(&self.scanner.dfa)
        &&& self.scanner.pos <= self.scanner.chars@.len()
        &&& self.scanner.chars@.len() < usize::MAX / 8
    }

    /// A scanner at the start of `chars`.
    pub fn new(chars: Vec<char>) -> (r: Lexer)
        requires
            chars@.len() < usize::MAX / 8,
        ensures
            r.wf(),
            is_example(&r.scanner().dfa),
            r.scanner().chars == chars,
            r.scanner().pos == 0,
    {
        Lexer { scanner: Scanner::new(example_dfa(), chars) }
    }

    /// The next token by maximal munch, `EOF` once only whitespace is left,
    /// and an error where no token starts after the whitespace.
    pub fn next(&mut self) -> (r: Result<Token, TokenErr>)
        requires
            old(self).wf(),
        ensures
            final(self).wf(),
            final(self).scanner().dfa == old(self).scanner().dfa,
            final(self).scanner().chars == old(self).scanner().chars,
            ({
                let d = &old(self).scanner().dfa;
                let cs = old(self).scanner().chars@;
                let q = skip_end(d, cs, old(self).scanner().pos as int);
                let e = final(self).scanner().pos as int;
                &&& (r == Ok::<Token, TokenErr>(Token::EOF)) == (q == cs.len())
                &&& q == cs.len() ==> e == q
                &&& r is Err <==> (q < cs.len() && forall|e2: int| q < e2 <= cs.len() ==> #[trigger] label_of_span(d, cs, q, e2) == 0)
                &&& r matches Err(err) ==> {
                    &&& e == q
                    &&& err.line == line_breaks(cs.subrange(0, q)) + 1
                    &&& err.column == column_after(cs.subrange(0, q))
                    &&& err.source_line@ == cs.subrange(line_start(cs, q), line_end(cs, q))
                }
                &&& r is Ok && r != Ok::<Token, TokenErr>(Token::EOF) ==> {
                    &&& q < e <= cs.len()
                    &&& is_token_of(r->Ok_0, label_of_span(d, cs, q, e), cs.subrange(q, e))
                    &&& d.labels@[label_of_span(d, cs, q, e) - 1]@ == variant_name(r->Ok_0)
                    &&& forall|e2: int| e < e2 <= cs.len() ==> #[trigger] label_of_span(d, cs, q, e2) == 0
                }
            }),
    {
        match self.scanner.next() {
            Ok(None) => Ok(Token::EOF),
            Ok(Some(l)) => {
                proof {
                    let d = &old(self).scanner().dfa;
                    let cs = old(self).scanner().chars@;
                    let q = skip_end(d, cs, old(self).scanner().pos as int);
                    let w = cs.subrange(q, self.scanner.pos as int);
                    crate::scanner::lemma_run_chars_range(d, w);
                    let st = run_chars(d, 0, w);
                    assert(example_accepts()[st] <= 5);
                }
                Ok(Self::token(l))
            },
            Err(e) => Err(TokenErr { line: e.line, column: e.column, source_line: e.source_line }),
        }
    }

    /// The token of a matched lexeme.
    fn token(l: Lexeme) -> (t: Token)
        requires
            l.label != 0,
            l.label <= 5,
        ensures
            is_token_of(t, l.label, l.text@),
    {
        let label = l.label;
        let text = l.text;
        if label == 1 {
            Token::WHILE(text)
        } else if label == 2 {
            Token::FOR(text)
        } else if label == 3 {
            Token::LPAR(text)
        } else if label == 4 {
            Token::RPAR(text)
        } else {
            Token::IDENT(text)
        }
    }
}

} // verus!
