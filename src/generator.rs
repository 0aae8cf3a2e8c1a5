//! Emits the source of a table-driven, maximal-munch scanner for a
//! minimised automaton.
use vstd::prelude::*;

use crate::dfa::DFA;
use crate::text::{
    decimal, pad_left, pad_right, push_char, push_decimal, push_decimal_left, push_decimal_right,
    push_str,
};

verus! {

/// One match arm of a state's transition function: the bytes `lo..=hi`
/// all lead to `target`.
#[derive(Clone, Copy, Debug, PartialEq, Eq, Structural)]
pub struct Arm {
    pub lo: usize,
    pub hi: usize,
    pub target: usize,
}

/// The last byte of the run of bytes from `j` on that share `row[j]`.
pub open spec fn run_end(row: Seq<usize>, j: int) -> int
    decreases 256 - j,
{
    if 0 <= j && j + 1 < 256 && row[j + 1] == row[j] {
        run_end(row, j + 1)
    } else {
        j
    }
}

proof fn lemma_run_end(row: Seq<usize>, j: int)
    requires
        0 <= j < 256,
    ensures
        j <= run_end(row, j) < 256,
        forall|b: int| j <= b <= run_end(row, j) ==> row[b] == row[j],
        run_end(row, j) + 1 < 256 ==> row[run_end(row, j) + 1] != row[j],
    decreases 256 - j,
{
    if j + 1 < 256 && row[j + 1] == row[j] {
        lemma_run_end(row, j + 1);
    }
}

/// The arms for the bytes from `j` on: each maximal run of bytes with one
/// live destination becomes one arm; on the start state every self-loop
/// byte is an arm of its own; bytes that lead to `dead` get no arm.
pub open spec fn arms_from(row: Seq<usize>, dead: usize, loops: bool, j: int) -> Seq<Arm>
    decreases 256 - j,
{
    if j < 0 || j >= 256 {
        Seq::empty()
    } else if loops && row[j] == 0 {
        seq![Arm { lo: j as usize, hi: j as usize, target: 0 }] + arms_from(row, dead, loops, j + 1)
    } else if row[j] == dead {
        arms_from(row, dead, loops, j + 1)
    } else {
        let e = run_end(row, j);
        if e < j || e >= 256 {
            Seq::empty()
        } else {
            seq![Arm { lo: j as usize, hi: e as usize, target: row[j] }] + arms_from(row, dead, loops, e + 1)
        }
    }
}

/// Range compression of one state's row of the transition table. `loops`
/// marks the start state, whose self-loops skip whitespace.
pub fn transition_arms(row: &[usize; 256], dead: usize, loops: bool) -> (r: Vec<Arm>)
    ensures
        r@ == arms_from(row@, dead, loops, 0),
{
    let mut arms: Vec<Arm> = Vec::new();
    let mut j: usize = 0;
    while j < 256
        invariant
            j <= 256,
            arms_from(row@, dead, loops, 0) == arms@ + arms_from(row@, dead, loops, j as int),
        decreases 256 - j,
    {
        let nbr = row[j];
        if loops && nbr == 0 {
            let a = Arm { lo: j, hi: j, target: 0 };
            arms.push(a);
            proof {
                assert(arms_from(row@, dead, loops, j as int) == seq![a] + arms_from(row@, dead, loops, j + 1));
            }
            j = j + 1;
            assert(arms_from(row@, dead, loops, 0) =~= arms@ + arms_from(row@, dead, loops, j as int));
        } else if nbr == dead {
            j = j + 1;
        } else {
            let start = j;
            proof {
                lemma_run_end(row@, start as int);
            }
            while j + 1 < 256 && row[j + 1] == nbr
                invariant
                    start <= j < 256,
                    nbr == row@[start as int],
                    row@[j as int] == nbr,
                    run_end(row@, start as int) == run_end(row@, j as int),
                decreases 256 - j,
            {
                j = j + 1;
            }
            let a = Arm { lo: start, hi: j, target: nbr };
            arms.push(a);
            proof {
                assert(run_end(row@, j as int) == j);
                assert(arms_from(row@, dead, loops, start as int) == seq![a] + arms_from(row@, dead, loops, j + 1));
            }
            j = j + 1;
            assert(arms_from(row@, dead, loops, 0) =~= arms@ + arms_from(row@, dead, loops, j as int));
        }
    }
    proof {
        assert(arms_from(row@, dead, loops, 256) == Seq::<Arm>::empty());
        assert(arms@ + Seq::<Arm>::empty() =~= arms@);
    }
    arms
}

/// Every arm lies within the byte alphabet.
proof fn lemma_arms_bounded(row: Seq<usize>, dead: usize, loops: bool, j: int)
    ensures
        forall|k: int|
            0 <= k < arms_from(row, dead, loops, j).len() ==> (#[trigger] arms_from(row, dead, loops, j)[k]).lo < 256
                && arms_from(row, dead, loops, j)[k].hi < 256,
    decreases 256 - j,
{
    if 0 <= j < 256 {
        if loops && row[j] == 0 {
            lemma_arms_bounded(row, dead, loops, j + 1);
            let rest = arms_from(row, dead, loops, j + 1);
            let a = Arm { lo: j as usize, hi: j as usize, target: 0 };
            assert(arms_from(row, dead, loops, j) == seq![a] + rest);
            assert forall|k: int| 0 <= k < arms_from(row, dead, loops, j).len() implies (#[trigger] arms_from(row, dead, loops, j)[k]).lo < 256
                && arms_from(row, dead, loops, j)[k].hi < 256 by {
                if k > 0 {
                    assert(arms_from(row, dead, loops, j)[k] == rest[k - 1]);
                }
            }
        } else if row[j] == dead {
            lemma_arms_bounded(row, dead, loops, j + 1);
            assert(arms_from(row, dead, loops, j) == arms_from(row, dead, loops, j + 1));
        } else {
            let e = run_end(row, j);
            if e >= j && e < 256 {
                lemma_arms_bounded(row, dead, loops, e + 1);
                let rest = arms_from(row, dead, loops, e + 1);
                let a = Arm { lo: j as usize, hi: e as usize, target: row[j] };
                assert(arms_from(row, dead, loops, j) == seq![a] + rest);
                assert forall|k: int| 0 <= k < arms_from(row, dead, loops, j).len() implies (#[trigger] arms_from(row, dead, loops, j)[k]).lo < 256
                    && arms_from(row, dead, loops, j)[k].hi < 256 by {
                    if k > 0 {
                        assert(arms_from(row, dead, loops, j)[k] == rest[k - 1]);
                    }
                }
            }
        }
    }
}

/// How a character is written inside a character literal of the
/// generated source.
pub open spec fn escape_text(c: char) -> Seq<char> {
    if c == '\n' {
        "\\n"@
    } else if c == '\t' {
        "\\t"@
    } else if c == '\\' {
        "\\\\"@
    } else if c == '\'' {
        "\\'"@
    } else if c == '"' {
        "\\\""@
    } else if c == '\r' {
        "\\r"@
    } else {
        seq![c]
    }
}

/// The character as it is written inside a character literal.
pub fn escape(c: char) -> (r: String)
    ensures
        r@ == escape_text(c),
{
    let mut r = String::new();
    if c == '\n' {
        push_str(&mut r, "\\n");
    } else if c == '\t' {
        push_str(&mut r, "\\t");
    } else if c == '\\' {
        push_str(&mut r, "\\\\");
    } else if c == '\'' {
        push_str(&mut r, "\\'");
    } else if c == '"' {
        push_str(&mut r, "\\\"");
    } else if c == '\r' {
        push_str(&mut r, "\\r");
    } else {
        push_char(&mut r, c);
    }
    assert(r@ =~= escape_text(c));
    r
}


/// The opening of the generated source, up to the token variants.
pub const TOKEN_HEAD: &'static str = "use std::fs;\nuse Token::*;\n#[derive(Debug, PartialEq, Eq)]\npub enum Token {\n";

/// From the end of the token type to the size of the accept table.
pub const LEXER_HEAD: &'static str = "\tEOF\n}\n#[derive(Debug, PartialEq, Eq)]\npub struct TokenErr {\n   pub error: String\n}\npub struct Lexer {\n  chars:   Vec<char>,\n  pos:     usize,\n  begins:  Vec<usize>,\n  tabs:    Vec<usize>,\n  column:  usize,\n  accepts: [usize; ";

/// From the size of the accept table to the table itself.
pub const LEXER_NEW: &'static str = "]\n}\nimpl Lexer {\n    pub fn new(fname: &str) -> Result<Self, Box<dyn std::error::Error>> {\n        let chars = fs::read_to_string(fname)?\n            .chars()\n            .collect();\n";

/// The rest of the constructor, the cursor moves, and the head of `next`.
pub const LEXER_BODY: &'static str = "\n        return Ok(Lexer { \n           chars,\n           pos: 0,\n           begins: vec![0; 1],\n           tabs:   Vec::new(),\n           column: 0,\n           accepts\n        });\n    }\n\n   fn advance(&mut self) -> char {\n       let c = self.chars[self.pos];\n        match c {\n           '\\n' => {\n               self.column = 0;\n               self.begins.push(self.pos + 1);\n           },\n           '\\t' => {\n               self.tabs.push(self.column);\n               self.column += 4 - (self.column % 4);\n           }\n           _ => self.column += 1\n       }\n       self.pos += 1;\n       return c;\n   }\n   fn retract(&mut self) {\n       self.pos -= 1;\n       let c = self.chars[self.pos];\n       match c {\n           '\\n' => {\n               self.begins.pop();\n               self.column = self.pos - self.begins[self.begins.len() - 1];\n           }\n           '\\t' => {\n               self.column = self.tabs.pop().unwrap();\n           }\n           _ => self.column -= 1\n       }\n   }\n\tpub fn next(&mut self) -> Result<Token, TokenErr> {\n";

/// The driver loop up to the per-state transitions.
pub const AUTOMATON_HEAD: &'static str = "\t\tif self.pos == self.chars.len() { return Ok(EOF); }\n\t\tlet mut stk: Vec<usize> = Vec::new();\n\t\tlet mut chars: Vec<char> = Vec::new();\n\t\tlet mut state: usize = 0;\n\t\tloop {\n\t\t\tif self.pos == self.chars.len() { break; }\n\t\t\tlet c = self.advance();\n\t\t\tstate = match state {\n";

/// What the dead state does: keep the character and stop reading.
pub const DEAD_BODY: &'static str = "\t\t\t\t\tstk.push(state);\n\t\t\t\t\tchars.push(c);\n\t\t\t\t\tbreak;\n\t\t\t\t}\n";

/// From the end of the transitions to the dispatch on accept labels:
/// backtracking to the last accepting state, the end of input after
/// whitespace, and the lexical error with its line and column.
pub const AUTOMATON_MID: &'static str = "\t\t\t\t_ => panic!(\"Invalid State!\")\n\t\t\t};\n\t\t\tstk.push(state);\n\t\t\tchars.push(c);\n\t\t}\n\t\tif stk.len() == 0 && self.pos == self.chars.len() { return Ok(EOF); }\n\t\twhile stk.len() > 0 &&\n\t\t   self.accepts[stk[stk.len() - 1]] == 0 {\n\t\t   stk.pop().unwrap();\n\t\t   chars.pop().unwrap();\n\t\t   self.retract();\n\t\t}\n\t\tif stk.len() == 0 {\n\t\t    let start = self.begins[self.begins.len() - 1];\n\t\t    let error_line: String = self.chars[start..]\n\t\t        .iter()\n\t\t        .take_while(|&&c| c != '\\n')\n\t\t        .collect();\n\t\t    return Err(TokenErr{error: format!(\n\t\t        \"Failed to lex from: \\n{}\\n{}^\",\n\t\t        error_line,\n\t\t        \" \".repeat(self.column)\n\t\t    )});\n\t\t}\n\t\tlet word : String = chars.iter().collect();\n\t\tmatch self.accepts[stk[stk.len() - 1]] {\n";

/// The end of the dispatch and of the generated source.
pub const AUTOMATON_TAIL: &'static str = "\t\t\t_    => panic!(\"Invalid Accepting State\")\n\t\t}\n\t}\n}\n";

/// A line indented by `tabs` tabs.
pub open spec fn line(tabs: nat, s: Seq<char>) -> Seq<char> {
    crate::text::repeat('\t', tabs) + s + seq!['\n']
}

/// The token variants, one per named pattern.
pub open spec fn variants(labels: Seq<String>) -> Seq<char>
    decreases labels.len(),
{
    if labels.len() == 0 {
        Seq::empty()
    } else {
        variants(labels.drop_last()) + if labels.last()@.len() == 0 {
            Seq::<char>::empty()
        } else {
            line(1, labels.last()@ + "(String),"@)
        }
    }
}

/// What follows entry `k` of an accept table of `n` entries: five to a line.
pub open spec fn cell_sep(k: int, n: int) -> Seq<char> {
    if k % 5 == 4 {
        ",\n"@
    } else if k == n - 1 {
        "\n"@
    } else {
        ", "@
    }
}

/// The first `i` entries of the accept table.
pub open spec fn accept_cells(acc: Seq<usize>, i: nat) -> Seq<char>
    decreases i,
{
    if i == 0 || i > acc.len() {
        Seq::empty()
    } else {
        accept_cells(acc, (i - 1) as nat) + "\t\t\t"@ + pad_left(decimal(acc[i - 1] as nat), 4) + cell_sep(
            i - 1,
            acc.len() as int,
        )
    }
}

/// The accept table as an array literal.
pub open spec fn accepts_table(acc: Seq<usize>) -> Seq<char> {
    "\t\tlet accepts = [\n"@ + accept_cells(acc, acc.len()) + "\t\t];"@
}

/// The source of one match arm.
pub open spec fn arm_text(a: Arm, loops: bool, tabs: nat) -> Seq<char> {
    let lo = escape_text(a.lo as char);
    let hi = escape_text(a.hi as char);
    let pattern = if a.lo == a.hi {
        "'"@ + lo + "'"@
    } else if a.hi == a.lo + 1 {
        "'"@ + lo + "' | '"@ + hi + "'"@
    } else {
        "'"@ + lo + "'..='"@ + hi + "'"@
    };
    let dest = if loops && a.target == 0 {
        "continue"@
    } else {
        decimal(a.target as nat)
    };
    line(tabs, pattern + " => "@ + dest + ","@)
}

/// The source of a list of match arms.
pub open spec fn arms_text(arms: Seq<Arm>, loops: bool, tabs: nat) -> Seq<char>
    decreases arms.len(),
{
    if arms.len() == 0 {
        Seq::empty()
    } else {
        arms_text(arms.drop_last(), loops, tabs) + arm_text(arms.last(), loops, tabs)
    }
}

/// The source of the transition function of state `s`.
pub open spec fn state_block(d: &DFA, s: int) -> Seq<char> {
    if s == d.dead {
        line(4, decimal(s as nat) + " => {"@) + DEAD_BODY@
    } else {
        transitions_block(d, s, 4)
    }
}

/// The range-compressed transition function of the live state `s`,
/// indented by `tabs` tabs, its arms by one more.
pub open spec fn transitions_block(d: &DFA, s: int, tabs: nat) -> Seq<char> {
    line(tabs, decimal(s as nat) + " => match c {"@) + arms_text(arms_from(d.jumps@[s]@, d.dead, s == 0, 0), s == 0, tabs + 1)
        + line(tabs + 1, "_ => "@ + decimal(d.dead as nat)) + line(tabs, "},"@)
}

/// The transition functions of the first `n` states.
pub open spec fn state_blocks(d: &DFA, n: nat) -> Seq<char>
    decreases n,
{
    if n == 0 {
        Seq::empty()
    } else {
        state_blocks(d, (n - 1) as nat) + state_block(d, n - 1)
    }
}

/// The dispatch arms from accept label to token, for the first `n` labels.
pub open spec fn label_arms(labels: Seq<String>, n: nat) -> Seq<char>
    decreases n,
{
    if n == 0 || n > labels.len() {
        Seq::empty()
    } else {
        label_arms(labels, (n - 1) as nat) + if labels[n - 1]@.len() == 0 {
            Seq::<char>::empty()
        } else {
            line(3, pad_right(decimal(n), 4) + " => return Ok("@ + labels[n - 1]@ + "(word)),"@)
        }
    }
}

/// The generated scanner's source for an automaton.
pub open spec fn scanner_source(d: &DFA) -> Seq<char> {
    TOKEN_HEAD@ + variants(d.labels@) + LEXER_HEAD@ + decimal(d.ncount as nat) + LEXER_NEW@ + accepts_table(
        d.accepts@,
    ) + LEXER_BODY@ + AUTOMATON_HEAD@ + state_blocks(d, d.ncount as nat) + AUTOMATON_MID@ + label_arms(
        d.labels@,
        d.labels@.len(),
    ) + AUTOMATON_TAIL@
}

/// Writes the scanner's source for an automaton into a string, keeping the
/// current indentation.
pub struct Generator<'a> {
    pub dfa: &'a DFA,
    pub out: String,
    pub tabs: usize,
}

impl<'a> Generator<'a> {
    /// A generator with empty output.
    pub fn new(dfa: &'a DFA) -> (r: Generator<'a>)
        ensures
            r.dfa == dfa,
            r.out@.len() == 0,
            r.tabs == 0,
    {
        Generator { dfa, out: String::new(), tabs: 0 }
    }

    /// Appends `s` as it is.
    fn write_inline(&mut self, s: &str)
        ensures
            final(self).out@ == old(self).out@ + s@,
            final(self).dfa == old(self).dfa,
            final(self).tabs == old(self).tabs,
    {
        push_str(&mut self.out, s);
    }

    /// Appends `s` after the indentation.
    fn write(&mut self, s: &str)
        ensures
            final(self).out@ == old(self).out@ + crate::text::repeat('\t', old(self).tabs as nat) + s@,
            final(self).dfa == old(self).dfa,
            final(self).tabs == old(self).tabs,
    {
        crate::text::push_repeat(&mut self.out, '\t', self.tabs);
        push_str(&mut self.out, s);
    }

    /// Appends `s` as an indented line.
    fn writeln(&mut self, s: &str)
        ensures
            final(self).out@ == old(self).out@ + line(old(self).tabs as nat, s@),
            final(self).dfa == old(self).dfa,
            final(self).tabs == old(self).tabs,
    {
        self.write(s);
        push_char(&mut self.out, '\n');
        assert(self.out@ =~= old(self).out@ + line(old(self).tabs as nat, s@));
    }

    fn indent(&mut self)
        requires
            old(self).tabs < usize::MAX,
        ensures
            final(self).tabs == old(self).tabs + 1,
            final(self).out == old(self).out,
            final(self).dfa == old(self).dfa,
    {
        self.tabs = self.tabs + 1;
    }

    fn unindent(&mut self)
        requires
            old(self).tabs > 0,
        ensures
            final(self).tabs == old(self).tabs - 1,
            final(self).out == old(self).out,
            final(self).dfa == old(self).dfa,
    {
        self.tabs = self.tabs - 1;
    }

    /// The accept table as an array literal.
    fn gen_accepts(&self) -> (r: String)
        ensures
            r@ == accepts_table(self.dfa.accepts@),
    {
        let acc = &self.dfa.accepts;
        let n = acc.len();
        let mut res = String::new();
        push_str(&mut res, "\t\tlet accepts = [\n");
        for i in 0..n
            invariant
                n == acc@.len(),
                res@ == "\t\tlet accepts = [\n"@ + accept_cells(acc@, i as nat),
        {
            push_str(&mut res, "\t\t\t");
            push_decimal_left(&mut res, acc[i], 4);
            if i % 5 == 4 {
                push_str(&mut res, ",\n");
            } else if i == n - 1 {
                push_str(&mut res, "\n");
            } else {
                push_str(&mut res, ", ");
            }
            assert(res@ =~= "\t\tlet accepts = [\n"@ + accept_cells(acc@, (i + 1) as nat));
        }
        push_str(&mut res, "\t\t];");
        res
    }

    /// The source line of one match arm, without indentation.
    fn arm_line(a: Arm, loops: bool) -> (r: String)
        requires
            a.lo < 256,
            a.hi < 256,
        ensures
            forall|t: nat| #[trigger] arm_text(a, loops, t) == line(t, r@),
    {
        let lo = escape((a.lo as u8) as char);
        let hi = escape((a.hi as u8) as char);
        let mut r = String::new();
        push_str(&mut r, "'");
        push_str(&mut r, lo.as_str());
        if a.lo == a.hi {
            push_str(&mut r, "'");
        } else if a.hi == a.lo + 1 {
            push_str(&mut r, "' | '");
            push_str(&mut r, hi.as_str());
            push_str(&mut r, "'");
        } else {
            push_str(&mut r, "'..='");
            push_str(&mut r, hi.as_str());
            push_str(&mut r, "'");
        }
        push_str(&mut r, " => ");
        if loops && a.target == 0 {
            push_str(&mut r, "continue");
        } else {
            push_decimal(&mut r, a.target);
        }
        push_str(&mut r, ",");
        assert forall|t: nat| #[trigger] arm_text(a, loops, t) == line(t, r@) by {
            assert(line(t, r@) =~= arm_text(a, loops, t));
        }
        r
    }

    /// The transition function of a live state, range-compressed.
    fn write_transitions(&mut self, state: usize)
        requires
            old(self).dfa.wf(),
            state < old(self).dfa.ncount,
            state != old(self).dfa.dead,
            old(self).tabs < usize::MAX - 1,
        ensures
            final(self).out@ == old(self).out@ + transitions_block(old(self).dfa, state as int, old(self).tabs as nat),
            final(self).dfa == old(self).dfa,
            final(self).tabs == old(self).tabs,
    {
        let row = self.dfa.jumps[state];
        let dead = self.dfa.dead;
        let loops = state == 0;
        let mut head = String::new();
        push_decimal(&mut head, state);
        push_str(&mut head, " => match c {");
        self.writeln(head.as_str());
        let ghost start = self.out@;
        self.indent();
        let arms = transition_arms(&row, dead, loops);
        proof {
            lemma_arms_bounded(row@, dead, loops, 0);
        }
        for k in 0..arms.len()
            invariant
                self.tabs == old(self).tabs + 1,
                self.dfa == old(self).dfa,
                arms@ == arms_from(row@, dead, loops, 0),
                forall|m: int| 0 <= m < arms@.len() ==> (#[trigger] arms@[m]).lo < 256 && arms@[m].hi < 256,
                self.out@ == start + arms_text(arms@.subrange(0, k as int), loops, self.tabs as nat),
        {
            let text = Self::arm_line(arms[k], loops);
            self.writeln(text.as_str());
            proof {
                assert(arms@.subrange(0, k + 1).drop_last() =~= arms@.subrange(0, k as int));
                assert(self.out@ =~= start + arms_text(arms@.subrange(0, k + 1), loops, self.tabs as nat));
            }
        }
        proof {
            assert(arms@.subrange(0, arms@.len() as int) =~= arms@);
        }
        let mut tail = String::new();
        push_str(&mut tail, "_ => ");
        push_decimal(&mut tail, dead);
        self.writeln(tail.as_str());
        self.unindent();
        self.writeln("},");
        proof {
            assert(row@ == self.dfa.jumps@[state as int]@);
            assert(self.out@ =~= old(self).out@ + transitions_block(old(self).dfa, state as int, old(self).tabs as nat));
        }
    }

    /// The driver loop: the transitions of every state, backtracking, and
    /// the dispatch from accept label to token.
    fn write_automota(&mut self)
        requires
            old(self).dfa.wf(),
            old(self).tabs == 2,
        ensures
            final(self).out@ == old(self).out@ + AUTOMATON_HEAD@ + state_blocks(old(self).dfa, old(self).dfa.ncount as nat)
                + AUTOMATON_MID@ + label_arms(old(self).dfa.labels@, old(self).dfa.labels@.len()) + AUTOMATON_TAIL@,
            final(self).dfa == old(self).dfa,
            final(self).tabs == old(self).tabs,
    {
        self.write_inline(AUTOMATON_HEAD);
        self.indent();
        self.indent();
        let ghost start = self.out@;
        let n = self.dfa.ncount;
        for state in 0..n
            invariant
                self.tabs == 4,
                self.dfa == old(self).dfa,
                self.dfa.wf(),
                n == self.dfa.ncount,
                self.out@ == start + state_blocks(self.dfa, state as nat),
        {
            if state == self.dfa.dead {
                let mut head = String::new();
                push_decimal(&mut head, state);
                push_str(&mut head, " => {");
                self.writeln(head.as_str());
                self.write_inline(DEAD_BODY);
            } else {
                self.write_transitions(state);
            }
            assert(self.out@ =~= start + state_blocks(self.dfa, (state + 1) as nat));
        }
        self.unindent();
        self.write_inline(AUTOMATON_MID);
        let ghost mid = self.out@;
        let labels = &self.dfa.labels;
        for idx in 0..labels.len()
            invariant
                self.tabs == 3,
                self.dfa == old(self).dfa,
                labels == &self.dfa.labels,
                self.out@ == mid + label_arms(labels@, idx as nat),
        {
            let label = &labels[idx];
            if !label.as_str().is_empty() {
                let mut text = String::new();
                push_decimal_right(&mut text, idx + 1, 4);
                push_str(&mut text, " => return Ok(");
                push_str(&mut text, label.as_str());
                push_str(&mut text, "(word)),");
                self.writeln(text.as_str());
            }
            assert(self.out@ =~= mid + label_arms(labels@, (idx + 1) as nat));
        }
        self.unindent();
        self.write_inline(AUTOMATON_TAIL);
        assert(self.out@ =~= old(self).out@ + AUTOMATON_HEAD@ + state_blocks(old(self).dfa, old(self).dfa.ncount as nat)
            + AUTOMATON_MID@ + label_arms(old(self).dfa.labels@, old(self).dfa.labels@.len()) + AUTOMATON_TAIL@);
    }

    /// Appends the scanner's source for the automaton.
    pub fn generate(&mut self)
        requires
            old(self).dfa.wf(),
            old(self).tabs == 0,
        ensures
            final(self).out@ == old(self).out@ + scanner_source(old(self).dfa),
            final(self).dfa == old(self).dfa,
            final(self).tabs == 0,
    {
        self.write_inline(TOKEN_HEAD);
        self.indent();
        let ghost start = self.out@;
        let labels = &self.dfa.labels;
        for idx in 0..labels.len()
            invariant
                self.tabs == 1,
                self.dfa == old(self).dfa,
                labels == &self.dfa.labels,
                self.out@ == start + variants(labels@.subrange(0, idx as int)),
        {
            let label = &labels[idx];
            if !label.as_str().is_empty() {
                let mut text = String::new();
                push_str(&mut text, label.as_str());
                push_str(&mut text, "(String),");
                self.writeln(text.as_str());
            }
            proof {
                assert(labels@.subrange(0, idx + 1).drop_last() =~= labels@.subrange(0, idx as int));
            }
            assert(self.out@ =~= start + variants(labels@.subrange(0, idx + 1)));
        }
        proof {
            assert(labels@.subrange(0, labels@.len() as int) =~= labels@);
        }
        self.unindent();
        self.write_inline(LEXER_HEAD);
        push_decimal(&mut self.out, self.dfa.ncount);
        self.write_inline(LEXER_NEW);
        let table = self.gen_accepts();
        self.write_inline(table.as_str());
        self.write_inline(LEXER_BODY);
        self.indent();
        self.indent();
        self.write_automota();
        self.unindent();
        self.unindent();
        assert(self.out@ =~= old(self).out@ + scanner_source(old(self).dfa));
    }
}

} // verus!
