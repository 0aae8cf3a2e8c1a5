//! The tokens of the pattern-specification language and its lexer.
use vstd::prelude::*;

verus! {

/// The operators of the pattern language.
#[derive(Copy, Clone, Debug, PartialEq, Eq, Structural)]
pub enum Op {
    STAR,
    PLUS,
    QUESTION,
    BAR,
    DASH,
    AND,
}

/// The grouping characters of the pattern language.
#[derive(Copy, Clone, Debug, PartialEq, Eq, Structural)]
pub enum Group {
    DBQ,
    LBR,
    RBR,
    LCR,
    RCR,
    LPR,
    RPR,
}

/// A token of the pattern language.
#[derive(Copy, Clone, Debug, PartialEq, Eq, Structural)]
pub enum Token {
    OP(Op),
    GROUP(Group),
    CHAR(char),
    SEMI,
    EOF,
}

/// Why the pattern lexer refused its input.
#[derive(Copy, Clone, Debug, PartialEq, Eq, Structural)]
pub enum TokenErr {
    InvalidExpr,
    InvalidEscape,
}


impl Token {
    /// The character of a character token.
    pub fn char(&self) -> (c: char)
        requires
            *self is CHAR,
        ensures
            *self == Token::CHAR(c),
    {
        match self {
            Token::CHAR(c) => *c,
            _ => ' ',
        }
    }
}

/// A source of tokens that always makes progress: every token but the end
/// of input uses up input.
pub trait TokenGiver: Sized {
    /// How much input is left.
    spec fn remaining(&self) -> nat;

    /// The token, or the error, that the source gives next.
    spec fn token_at(&self) -> Result<Token, TokenErr>;

    /// The source once it has given that token.
    spec fn after(&self) -> Self;

    /// The next token.
    fn next(&mut self) -> (r: Result<Token, TokenErr>)
        ensures
            r == old(self).token_at(),
            *final(self) == old(self).after(),
            final(self).remaining() <= old(self).remaining(),
            r == Ok::<Token, TokenErr>(Token::EOF) ==> final(self).remaining() == 0,
            r != Ok::<Token, TokenErr>(Token::EOF) ==> final(self).remaining() < old(self).remaining(),
    ;

    /// The next token, leaving the source as it was.
    fn peek(&mut self) -> (r: Result<Token, TokenErr>)
        ensures
            r == old(self).token_at(),
            *final(self) == *old(self),
    ;
}

/// The token of a character that stands for itself as a token.
pub open spec fn single_token(c: char) -> Option<Token> {
    if c == '[' {
        Some(Token::GROUP(Group::LBR))
    } else if c == ']' {
        Some(Token::GROUP(Group::RBR))
    } else if c == '{' {
        Some(Token::GROUP(Group::LCR))
    } else if c == '}' {
        Some(Token::GROUP(Group::RCR))
    } else if c == '(' {
        Some(Token::GROUP(Group::LPR))
    } else if c == ')' {
        Some(Token::GROUP(Group::RPR))
    } else if c == '-' {
        Some(Token::OP(Op::DASH))
    } else if c == '*' {
        Some(Token::OP(Op::STAR))
    } else if c == '+' {
        Some(Token::OP(Op::PLUS))
    } else if c == '?' {
        Some(Token::OP(Op::QUESTION))
    } else if c == '|' {
        Some(Token::OP(Op::BAR))
    } else if c == ';' {
        Some(Token::SEMI)
    } else {
        None
    }
}

/// A character that may follow a backslash inside a pattern.
pub open spec fn is_escapable(c: char) -> bool {
    c == '\\' || c == ']' || c == '[' || c == ')' || c == '(' || c == '-' || c == '*' || c == ';' || c == '+'
        || c == '"' || c == '\'' || c == '?' || c == '|'
}

/// What a backslash followed by `e` stands for.
pub open spec fn escaped(e: char, enclosed: bool) -> Result<Token, TokenErr> {
    if e == 'n' {
        Ok(Token::CHAR('\n'))
    } else if e == 't' {
        Ok(Token::CHAR('\t'))
    } else if e == 'r' {
        Ok(Token::CHAR('\r'))
    } else if is_escapable(e) {
        if enclosed {
            Ok(Token::CHAR(e))
        } else {
            Err(TokenErr::InvalidExpr)
        }
    } else {
        Err(TokenErr::InvalidEscape)
    }
}

/// The position just after the comment that runs from `p` to its line break.
pub open spec fn comment_end(cs: Seq<char>, p: int) -> int
    decreases cs.len() - p,
{
    if p < 0 || p >= cs.len() {
        p
    } else if cs[p] == '\n' {
        p + 1
    } else {
        comment_end(cs, p + 1)
    }
}

proof fn lemma_comment_end(cs: Seq<char>, p: int)
    requires
        0 <= p <= cs.len(),
    ensures
        p <= comment_end(cs, p) <= cs.len(),
    decreases cs.len() - p,
{
    if p < cs.len() && cs[p] != '\n' {
        lemma_comment_end(cs, p + 1);
    }
}

/// The token that the text `cs` gives from position `p` on, with the
/// position and quoting just after it, where
/// `enclosed` tells whether `p` lies inside quotes: tabs and line breaks
/// are skipped, and so are spaces outside quotes and comments from `#` to
/// the end of the line.
pub open spec fn lex(cs: Seq<char>, p: int, enclosed: bool) -> (Result<Token, TokenErr>, int, bool)
    decreases cs.len() - p,
{
    if p < 0 || p >= cs.len() {
        (Ok(Token::EOF), p, enclosed)
    } else {
        let c = cs[p];
        if c == '\t' || c == '\n' || c == '\r' {
            lex(cs, p + 1, enclosed)
        } else if c == '"' {
            (Ok(Token::GROUP(Group::DBQ)), p + 1, !enclosed)
        } else if single_token(c) is Some {
            (Ok(single_token(c)->Some_0), p + 1, enclosed)
        } else if c == '#' {
            let q = comment_end(cs, p + 1);
            if p < q <= cs.len() {
                lex(cs, q, enclosed)
            } else {
                (Ok(Token::EOF), q, enclosed)
            }
        } else if c == '\\' {
            if p + 1 >= cs.len() {
                (Err(TokenErr::InvalidExpr), p + 1, enclosed)
            } else {
                (escaped(cs[p + 1], enclosed), p + 2, enclosed)
            }
        } else if c == ' ' && !enclosed {
            lex(cs, p + 1, enclosed)
        } else {
            (Ok(Token::CHAR(c)), p + 1, enclosed)
        }
    }
}

/// The lexer of the pattern language: quotes toggle between pattern text,
/// where spaces are characters, and the text around patterns.
pub struct Lexer {
    chars: Vec<char>,
    pos: usize,
    enclosed: bool,
}

impl Lexer {
    /// A lexer at the start of `chars`.
    pub fn new(chars: Vec<char>) -> (r: Lexer)
        ensures
            r.remaining() == chars@.len(),
    {
        Lexer { chars, pos: 0, enclosed: false }
    }

    /// Where the next token is looked for.
    pub closed spec fn start(&self) -> int {
        if self.pos <= self.chars@.len() {
            self.pos as int
        } else {
            self.chars@.len() as int
        }
    }

    fn nextchar(&mut self) -> (c: char)
        requires
            old(self).pos < old(self).chars@.len(),
        ensures
            c == old(self).chars@[old(self).pos as int],
            final(self).pos == old(self).pos + 1,
            final(self).chars == old(self).chars,
            final(self).enclosed == old(self).enclosed,
    {
        let n = self.chars.len();
        assert(self.pos < n);
        self.pos = self.pos + 1;
        self.chars[self.pos - 1]
    }

    /// A character that may follow a backslash inside a pattern.
    fn escapable(c: char) -> (r: bool)
        ensures
            r == is_escapable(c),
    {
        c == '\\' || c == ']' || c == '[' || c == ')' || c == '(' || c == '-' || c == '*' || c == ';'
            || c == '+' || c == '"' || c == '\'' || c == '?' || c == '|'
    }

    /// The next token and the input it used up.
    fn next_token(&mut self) -> (r: Result<Token, TokenErr>)
        ensures
            final(self).chars == old(self).chars,
            final(self).remaining() <= old(self).remaining(),
            r == Ok::<Token, TokenErr>(Token::EOF) ==> final(self).remaining() == 0,
            r != Ok::<Token, TokenErr>(Token::EOF) ==> final(self).remaining() < old(self).remaining(),
            r == lex(old(self).chars@, old(self).start(), old(self).enclosed).0,
            final(self).pos == lex(old(self).chars@, old(self).start(), old(self).enclosed).1,
            final(self).enclosed == lex(old(self).chars@, old(self).start(), old(self).enclosed).2,
    {
        if self.pos > self.chars.len() {
            self.pos = self.chars.len();
        }
        loop
            invariant
                self.pos <= self.chars@.len(),
                self.chars == old(self).chars,
                self.remaining() <= old(self).remaining(),
                lex(self.chars@, self.pos as int, self.enclosed) == lex(old(self).chars@, old(self).start(), old(self).enclosed),
            decreases self.chars@.len() - self.pos,
        {
            if self.pos == self.chars.len() {
                return Ok(Token::EOF);
            }
            let ghost p0 = self.pos;
            let c = self.nextchar();
            if c == '\t' || c == '\n' || c == '\r' {
            } else if c == '"' {
                self.enclosed = !self.enclosed;
                return Ok(Token::GROUP(Group::DBQ));
            } else if c == '[' {
                return Ok(Token::GROUP(Group::LBR));
            } else if c == ']' {
                return Ok(Token::GROUP(Group::RBR));
            } else if c == '{' {
                return Ok(Token::GROUP(Group::LCR));
            } else if c == '}' {
                return Ok(Token::GROUP(Group::RCR));
            } else if c == '(' {
                return Ok(Token::GROUP(Group::LPR));
            } else if c == ')' {
                return Ok(Token::GROUP(Group::RPR));
            } else if c == '-' {
                return Ok(Token::OP(Op::DASH));
            } else if c == '*' {
                return Ok(Token::OP(Op::STAR));
            } else if c == '+' {
                return Ok(Token::OP(Op::PLUS));
            } else if c == '?' {
                return Ok(Token::OP(Op::QUESTION));
            } else if c == '|' {
                return Ok(Token::OP(Op::BAR));
            } else if c == ';' {
                return Ok(Token::SEMI);
            } else if c == '#' {
                proof {
                    lemma_comment_end(self.chars@, self.pos as int);
                }
                let ghost e0 = self.enclosed;
                let mut done = false;
                while self.pos < self.chars.len() && !done
                    invariant
                        self.pos <= self.chars@.len(),
                        self.chars == old(self).chars,
                        self.remaining() < old(self).remaining(),
                        self.pos > p0,
                        self.enclosed == e0,
                        done ==> comment_end(self.chars@, p0 + 1) == self.pos as int,
                        !done ==> comment_end(self.chars@, p0 + 1) == comment_end(self.chars@, self.pos as int),
                    decreases self.chars@.len() - self.pos,
                {
                    if self.nextchar() == '\n' {
                        done = true;
                    }
                }
                assert(comment_end(self.chars@, p0 + 1) == self.pos as int);
            } else if c == '\\' {
                if self.pos == self.chars.len() {
                    return Err(TokenErr::InvalidExpr);
                }
                let e = self.nextchar();
                if e == 'n' {
                    return Ok(Token::CHAR('\n'));
                } else if e == 't' {
                    return Ok(Token::CHAR('\t'));
                } else if e == 'r' {
                    return Ok(Token::CHAR('\r'));
                } else if Self::escapable(e) {
                    if self.enclosed {
                        return Ok(Token::CHAR(e));
                    } else {
                        return Err(TokenErr::InvalidExpr);
                    }
                } else {
                    return Err(TokenErr::InvalidEscape);
                }
            } else if c == ' ' {
                if self.enclosed {
                    return Ok(Token::CHAR(' '));
                }
            } else {
                return Ok(Token::CHAR(c));
            }
        }
    }
}

impl TokenGiver for Lexer {
    closed spec fn token_at(&self) -> Result<Token, TokenErr> {
        lex(self.chars@, self.start(), self.enclosed).0
    }

    closed spec fn after(&self) -> Lexer {
        let t = lex(self.chars@, self.start(), self.enclosed);
        Lexer { chars: self.chars, pos: t.1 as usize, enclosed: t.2 }
    }

    closed spec fn remaining(&self) -> nat {
        if self.pos <= self.chars@.len() {
            (self.chars@.len() - self.pos) as nat
        } else {
            0
        }
    }

    fn next(&mut self) -> (r: Result<Token, TokenErr>) {
        self.next_token()
    }

    fn peek(&mut self) -> (r: Result<Token, TokenErr>) {
        let pos = self.pos;
        let enclosed = self.enclosed;
        let r = self.next_token();
        self.pos = pos;
        self.enclosed = enclosed;
        r
    }
}

} // verus!
