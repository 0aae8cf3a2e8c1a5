//! Recursive-descent parser of the pattern language into pattern trees.
use vstd::prelude::*;

use crate::ast::{is_byte, BinaryExprNode, Match, Node, UnaryExprNode};
use crate::generator::{escape, escape_text};
use crate::lexer::{Group, Op, Token, TokenErr, TokenGiver};
use crate::text::push_str;

verus! {

/// Why a specification could not be parsed.
#[derive(Debug)]
pub enum ParseError {
    Parse(String),
    Token(TokenErr),
}

/// Whether `c` is a letter, as `char::is_alphabetic` decides.
pub uninterp spec fn alphabetic(c: char) -> bool;

/// Relies on `char::is_alphabetic`: whether `c` has the Unicode Alphabetic property.
#[verifier::external_body]
fn is_alphabetic(c: char) -> (r: bool)
    ensures
        r == alphabetic(c),
{
    c.is_alphabetic()
}

/// A range of two digits or two letters, in ascending order.
pub open spec fn is_range(n: Node) -> bool {
    match n {
        Node::BinaryExpr(b) => b.op == Op::DASH && match (*b.left, *b.right) {
            (Node::Char(c), Node::Char(d)) => c <= d && (('0' <= c <= '9' && '0' <= d <= '9') || (alphabetic(c)
                && alphabetic(d))),
            _ => false,
        },
        _ => false,
    }
}

/// One item of a bracket expression: a byte or a range.
pub open spec fn is_bracket_item(n: Node) -> bool {
    n is Char || is_range(n)
}

/// The items of a bracket expression joined by alternation, nested to the
/// left in the order they were written.
pub open spec fn is_bracket_list(n: Node) -> bool
    decreases n,
{
    is_bracket_item(n) || match n {
        Node::BinaryExpr(b) => b.op == Op::BAR && is_bracket_list(*b.left) && is_bracket_item(*b.right),
        _ => false,
    }
}

/// How an operator is named in messages.
pub open spec fn op_name(o: Op) -> Seq<char> {
    match o {
        Op::STAR => "STAR"@,
        Op::PLUS => "PLUS"@,
        Op::QUESTION => "QUESTION"@,
        Op::BAR => "BAR"@,
        Op::DASH => "DASH"@,
        Op::AND => "AND"@,
    }
}

/// How a grouping character is named in messages.
pub open spec fn group_name(g: Group) -> Seq<char> {
    match g {
        Group::DBQ => "DBQ"@,
        Group::LBR => "LBR"@,
        Group::RBR => "RBR"@,
        Group::LCR => "LCR"@,
        Group::RCR => "RCR"@,
        Group::LPR => "LPR"@,
        Group::RPR => "RPR"@,
    }
}

/// How a token is named in messages.
pub open spec fn token_name(t: Token) -> Seq<char> {
    match t {
        Token::OP(o) => "OP("@ + op_name(o) + ")"@,
        Token::GROUP(g) => "GROUP("@ + group_name(g) + ")"@,
        Token::CHAR(c) => "CHAR('"@ + escape_text(c) + "')"@,
        Token::SEMI => "SEMI"@,
        Token::EOF => "EOF"@,
    }
}

/// The name of a token, for messages.
pub fn token_text(t: Token) -> (r: String)
    ensures
        r@ == token_name(t),
{
    let mut r = String::new();
    match t {
        Token::OP(o) => {
            push_str(&mut r, "OP(");
            match o {
                Op::STAR => push_str(&mut r, "STAR"),
                Op::PLUS => push_str(&mut r, "PLUS"),
                Op::QUESTION => push_str(&mut r, "QUESTION"),
                Op::BAR => push_str(&mut r, "BAR"),
                Op::DASH => push_str(&mut r, "DASH"),
                Op::AND => push_str(&mut r, "AND"),
            }
            push_str(&mut r, ")");
        },
        Token::GROUP(g) => {
            push_str(&mut r, "GROUP(");
            match g {
                Group::DBQ => push_str(&mut r, "DBQ"),
                Group::LBR => push_str(&mut r, "LBR"),
                Group::RBR => push_str(&mut r, "RBR"),
                Group::LCR => push_str(&mut r, "LCR"),
                Group::RCR => push_str(&mut r, "RCR"),
                Group::LPR => push_str(&mut r, "LPR"),
                Group::RPR => push_str(&mut r, "RPR"),
            }
            push_str(&mut r, ")");
        },
        Token::CHAR(c) => {
            push_str(&mut r, "CHAR('");
            let e = escape(c);
            push_str(&mut r, e.as_str());
            push_str(&mut r, "')");
        },
        Token::SEMI => push_str(&mut r, "SEMI"),
        Token::EOF => push_str(&mut r, "EOF"),
    }
    assert(r@ =~= token_name(t));
    r
}

/// A parse error whose message is the concatenation of the parts.
fn parse_error(parts: &[&str]) -> (r: ParseError)
    ensures
        r is Parse,
{
    let mut m = String::new();
    for i in 0..parts.len() {
        push_str(&mut m, parts[i]);
    }
    ParseError::Parse(m)
}

/// The trees and names of a list of patterns.
pub open spec fn pattern_view(ms: Seq<Match>) -> Seq<(Node, Seq<char>)> {
    ms.map_values(|m: Match| (m.root, m.name@))
}

/// Whether `t` is a character token.
fn is_char(t: Token) -> (r: bool)
    ensures
        r == t is CHAR,
{
    match t {
        Token::CHAR(_) => true,
        _ => false,
    }
}

/// Whether a factor can start with `t`.
fn starts_factor(t: Token) -> (r: bool)
    ensures
        r ==> t != Token::EOF,
        r == starts_factor_spec(t),
{
    match t {
        Token::CHAR(_) => true,
        Token::GROUP(Group::LPR) => true,
        Token::GROUP(Group::LBR) => true,
        _ => false,
    }
}

/// The token at position `i` of `ts`; the end of input outside it.
pub open spec fn tk(ts: Seq<Token>, i: int) -> Token {
    if 0 <= i < ts.len() {
        ts[i]
    } else {
        Token::EOF
    }
}

/// The grammar of an atom at position `i` of `ts`: a byte, a parenthesised
/// expression or a bracket expression; the tree and the position after it.
pub open spec fn p_atom(ts: Seq<Token>, i: int) -> Option<(Node, int)>
    decreases ts.len() - i, 0nat,
{
    if i < 0 || i >= ts.len() {
        None
    } else {
        match ts[i] {
            Token::GROUP(Group::LPR) => match p_expr(ts, i + 1) {
                Some((n, j)) => if tk(ts, j) == Token::GROUP(Group::RPR) {
                    Some((n, j + 1))
                } else {
                    None
                },
                None => None,
            },
            Token::CHAR(c) => if (c as u32) < 256 {
                Some((Node::Char(c), i + 1))
            } else {
                None
            },
            Token::GROUP(Group::LBR) => p_bracket(ts, i + 1, None),
            _ => None,
        }
    }
}

/// An atom, possibly followed by `*`, `+` or `?`.
pub open spec fn p_factor(ts: Seq<Token>, i: int) -> Option<(Node, int)>
    decreases ts.len() - i, 1nat,
{
    match p_atom(ts, i) {
        Some((n, j)) => match tk(ts, j) {
            Token::OP(op) => if op == Op::QUESTION || op == Op::STAR || op == Op::PLUS {
                Some((Node::UnaryExpr(UnaryExprNode { op, child: Box::new(n) }), j + 1))
            } else {
                Some((n, j))
            },
            _ => Some((n, j)),
        },
        None => None,
    }
}

/// Factors joined by concatenation, nested to the left, after `root`.
pub open spec fn p_term_more(ts: Seq<Token>, i: int, root: Node) -> Option<(Node, int)>
    decreases ts.len() - i, 2nat,
{
    if i < 0 || i > ts.len() {
        None
    } else if starts_factor_spec(tk(ts, i)) {
        match p_factor(ts, i) {
            Some((n, j)) => if i < j <= ts.len() {
                p_term_more(ts, j, Node::BinaryExpr(BinaryExprNode { op: Op::AND, left: Box::new(root), right: Box::new(n) }))
            } else {
                None
            },
            None => None,
        }
    } else {
        Some((root, i))
    }
}

/// A concatenation of factors.
pub open spec fn p_term(ts: Seq<Token>, i: int) -> Option<(Node, int)>
    decreases ts.len() - i, 3nat,
{
    match p_factor(ts, i) {
        Some((n, j)) => if i < j <= ts.len() {
            p_term_more(ts, j, n)
        } else {
            None
        },
        None => None,
    }
}

/// Terms joined by `|`, nested to the left, after `root`.
pub open spec fn p_expr_more(ts: Seq<Token>, i: int, root: Node) -> Option<(Node, int)>
    decreases ts.len() - i, 4nat,
{
    if i < 0 || i > ts.len() {
        None
    } else if tk(ts, i) == Token::OP(Op::BAR) {
        match p_term(ts, i + 1) {
            Some((n, j)) => if i < j <= ts.len() {
                p_expr_more(ts, j, Node::BinaryExpr(BinaryExprNode { op: Op::BAR, left: Box::new(root), right: Box::new(n) }))
            } else {
                None
            },
            None => None,
        }
    } else {
        Some((root, i))
    }
}

/// Alternatives separated by `|`.
pub open spec fn p_expr(ts: Seq<Token>, i: int) -> Option<(Node, int)>
    decreases ts.len() - i, 5nat,
{
    match p_term(ts, i) {
        Some((n, j)) => if i < j <= ts.len() {
            p_expr_more(ts, j, n)
        } else {
            None
        },
        None => None,
    }
}

/// A range `c-d` at position `i`: two digits, or two letters, in
/// ascending order within the byte alphabet.
pub open spec fn p_dash(ts: Seq<Token>, i: int) -> Option<(Node, int)> {
    match (tk(ts, i), tk(ts, i + 1), tk(ts, i + 2)) {
        (Token::CHAR(c), Token::OP(Op::DASH), Token::CHAR(d)) => {
            let ok = if '0' <= c <= '9' {
                '0' <= d <= '9'
            } else {
                alphabetic(c) && alphabetic(d)
            };
            if ok && c <= d && (d as u32) < 256 {
                Some((Node::BinaryExpr(BinaryExprNode { op: Op::DASH, left: Box::new(Node::Char(c)), right: Box::new(Node::Char(d)) }), i + 3))
            } else {
                None
            }
        },
        _ => None,
    }
}

/// The items of a bracket expression from position `i` on, after the
/// alternation `root` of the items before, up to and past the `]`.
pub open spec fn p_bracket(ts: Seq<Token>, i: int, root: Option<Node>) -> Option<(Node, int)>
    decreases ts.len() - i, 1nat,
{
    if i < 0 || i >= ts.len() {
        None
    } else {
        match ts[i] {
            Token::CHAR(_) => {
                let item = if tk(ts, i + 1) == Token::OP(Op::DASH) {
                    p_dash(ts, i)
                } else if tk(ts, i + 1) is CHAR || tk(ts, i + 1) == Token::GROUP(Group::RBR) {
                    p_atom(ts, i)
                } else {
                    None
                };
                match item {
                    Some((n, j)) => if i < j <= ts.len() {
                        p_bracket(
                            ts,
                            j,
                            Some(
                                match root {
                                    None => n,
                                    Some(r) => Node::BinaryExpr(BinaryExprNode { left: Box::new(r), right: Box::new(n), op: Op::BAR }),
                                },
                            ),
                        )
                    } else {
                        None
                    },
                    None => None,
                }
            },
            Token::GROUP(Group::RBR) => match root {
                Some(r) => Some((r, i + 1)),
                None => None,
            },
            _ => None,
        }
    }
}

/// The characters of a name from position `i` on, after `name`, up to and
/// past its `;`.
pub open spec fn p_name(ts: Seq<Token>, i: int, name: Seq<char>) -> Option<(Seq<char>, int)>
    decreases ts.len() - i,
{
    if i < 0 || i >= ts.len() {
        None
    } else {
        match ts[i] {
            Token::CHAR(c) => p_name(ts, i + 1, name.push(c)),
            Token::SEMI => Some((name, i + 1)),
            _ => None,
        }
    }
}

/// The patterns from position `i` on, after `done`: each a quoted
/// expression followed by its name, up to the end of input.
pub open spec fn p_patterns(ts: Seq<Token>, i: int, done: Seq<(Node, Seq<char>)>) -> Option<Seq<(Node, Seq<char>)>>
    decreases ts.len() - i,
{
    if i < 0 || i >= ts.len() {
        None
    } else if ts[i] == Token::GROUP(Group::DBQ) {
        match p_expr(ts, i + 1) {
            Some((n, j)) => if tk(ts, j) == Token::GROUP(Group::DBQ) && i < j <= ts.len() {
                match p_name(ts, j + 1, Seq::empty()) {
                    Some((name, k)) => if i < k <= ts.len() {
                        p_patterns(ts, k, done.push((n, name)))
                    } else {
                        None
                    },
                    None => None,
                }
            } else {
                None
            },
            None => None,
        }
    } else if ts[i] == Token::EOF {
        Some(done)
    } else {
        None
    }
}

/// A successful result ends at a position in `lo..hi`.
pub open spec fn lands<X>(o: Option<(X, int)>, lo: int, hi: int) -> bool {
    match o {
        Some((_, j)) => lo <= j < hi,
        None => true,
    }
}

/// The lexer after giving `n` tokens.
pub open spec fn nth<T: TokenGiver>(l: T, n: nat) -> T
    decreases n,
{
    if n == 0 {
        l
    } else {
        nth(l.after(), (n - 1) as nat)
    }
}

/// The lexer gives the tokens `ts` one after another.
pub open spec fn yields<T: TokenGiver>(l: T, ts: Seq<Token>) -> bool {
    forall|m: int| 0 <= m < ts.len() ==> #[trigger] nth(l, m as nat).token_at() == Ok::<Token, TokenErr>(ts[m])
}

/// A well-formed token sequence ends with the end of input.
pub open spec fn ends(ts: Seq<Token>) -> bool {
    ts.len() > 0 && ts.last() == Token::EOF
}

#[verifier::rlimit(80)]
proof fn lemma_positions(ts: Seq<Token>, i: int)
    requires
        ends(ts),
        0 <= i < ts.len(),
    ensures
        lands(p_atom(ts, i), i + 1, ts.len() as int),
        lands(p_factor(ts, i), i + 1, ts.len() as int),
        lands(p_term(ts, i), i + 1, ts.len() as int),
        lands(p_expr(ts, i), i + 1, ts.len() as int),
        lands(p_dash(ts, i), i + 1, ts.len() as int),
        forall|r: Option<Node>| lands(#[trigger] p_bracket(ts, i, r), i + 1, ts.len() as int),
        forall|root: Node| lands(#[trigger] p_term_more(ts, i, root), i, ts.len() as int),
        forall|root: Node| lands(#[trigger] p_expr_more(ts, i, root), i, ts.len() as int),
        forall|nm: Seq<char>| lands(#[trigger] p_name(ts, i, nm), i + 1, ts.len() as int),
    decreases ts.len() - i,
{
    if i + 1 < ts.len() {
        lemma_positions(ts, i + 1);
    }
    if i + 2 < ts.len() {
        lemma_positions(ts, i + 2);
    }
    assert(ts[ts.len() - 1] == Token::EOF);
    assert(lands(p_atom(ts, i), i + 1, ts.len() as int)) by {
        if i + 1 < ts.len() {
            assert(lands(p_expr(ts, i + 1), i + 2, ts.len() as int));
            assert(lands(p_bracket(ts, i + 1, None), i + 2, ts.len() as int));
            if let Some((n, j)) = p_expr(ts, i + 1) {
                if tk(ts, j) == Token::GROUP(Group::RPR) {
                    assert(j != ts.len() - 1);
                }
            }
        }
    }
    assert(lands(p_factor(ts, i), i + 1, ts.len() as int));
    assert(lands(p_dash(ts, i), i + 1, ts.len() as int)) by {
        if p_dash(ts, i) is Some {
            assert(tk(ts, i + 2) is CHAR);
            assert(i + 2 != ts.len() - 1);
        }
    }
    assert forall|r: Option<Node>| lands(#[trigger] p_bracket(ts, i, r), i + 1, ts.len() as int) by {
        if ts[i] is CHAR {
            let item = if tk(ts, i + 1) == Token::OP(Op::DASH) {
                p_dash(ts, i)
            } else if tk(ts, i + 1) is CHAR || tk(ts, i + 1) == Token::GROUP(Group::RBR) {
                p_atom(ts, i)
            } else {
                None
            };
            if let Some((n, j)) = item {
                if i < j <= ts.len() {
                    if j < ts.len() {
                        lemma_positions(ts, j);
                        let nr = Some(
                            match r {
                                None => n,
                                Some(x) => Node::BinaryExpr(BinaryExprNode { left: Box::new(x), right: Box::new(n), op: Op::BAR }),
                            },
                        );
                        assert(lands(p_bracket(ts, j, nr), j + 1, ts.len() as int));
                    }
                }
            }
        }
    }
    assert forall|root: Node| lands(#[trigger] p_term_more(ts, i, root), i, ts.len() as int) by {
        if starts_factor_spec(tk(ts, i)) {
            if let Some((n, j)) = p_factor(ts, i) {
                if i < j <= ts.len() && j < ts.len() {
                    lemma_positions(ts, j);
                    let nr = Node::BinaryExpr(BinaryExprNode { op: Op::AND, left: Box::new(root), right: Box::new(n) });
                    assert(lands(p_term_more(ts, j, nr), j, ts.len() as int));
                }
            }
        }
    }
    assert forall|root: Node| lands(#[trigger] p_expr_more(ts, i, root), i, ts.len() as int) by {
        if tk(ts, i) == Token::OP(Op::BAR) {
            assert(i + 1 < ts.len());
            assert(lands(p_term(ts, i + 1), i + 2, ts.len() as int));
            if let Some((n, j)) = p_term(ts, i + 1) {
                if i < j <= ts.len() && j < ts.len() {
                    lemma_positions(ts, j);
                    let nr = Node::BinaryExpr(BinaryExprNode { op: Op::BAR, left: Box::new(root), right: Box::new(n) });
                    assert(lands(p_expr_more(ts, j, nr), j, ts.len() as int));
                }
            }
        }
    }
    assert forall|nm: Seq<char>| lands(#[trigger] p_name(ts, i, nm), i + 1, ts.len() as int) by {
        if ts[i] is CHAR {
            if i + 1 < ts.len() {
                lemma_positions(ts, i + 1);
                assert(p_name(ts, i + 1, nm.push(ts[i]->CHAR_0)) == p_name(ts, i, nm));
            }
        }
    }
    if let Some((n, j)) = p_factor(ts, i) {
        if i < j <= ts.len() && j < ts.len() {
            lemma_positions(ts, j);
            assert(lands(p_term_more(ts, j, n), j, ts.len() as int));
        }
    }
    assert(lands(p_term(ts, i), i + 1, ts.len() as int));
    if let Some((n, j)) = p_term(ts, i) {
        if i < j <= ts.len() && j < ts.len() {
            lemma_positions(ts, j);
            assert(lands(p_expr_more(ts, j, n), j, ts.len() as int));
        }
    }
}

/// Whether a factor can start with `t`.
pub open spec fn starts_factor_spec(t: Token) -> bool {
    t is CHAR || t == Token::GROUP(Group::LPR) || t == Token::GROUP(Group::LBR)
}

/// The parser holds the current token and the source of the next ones.
pub struct Parser<T: TokenGiver> {
    cur: Token,
    lexer: T,
}

impl<T: TokenGiver> Parser<T> {
    /// The input left: twice what the lexer has left, and one for a current
    /// token other than the end of input.
    pub closed spec fn measure(&self) -> nat {
        2 * self.lexer.remaining() + if self.cur == Token::EOF {
            0nat
        } else {
            1nat
        }
    }

    /// The parser stands at position `i` of `ts`: its current token is
    /// `ts[i]` and its lexer gives the tokens after it, up to the single
    /// end of input that closes `ts`.
    pub closed spec fn at(&self, ts: Seq<Token>, i: int) -> bool {
        &&& ends(ts)
        &&& forall|m: int| 0 <= m < ts.len() - 1 ==> #[trigger] ts[m] != Token::EOF
        &&& 0 <= i < ts.len()
        &&& ts[i] == self.cur
        &&& forall|m: int| i < m < ts.len() ==> #[trigger] nth(self.lexer, (m - i - 1) as nat).token_at() == Ok::<Token, TokenErr>(ts[m])
    }

    /// A tree result agrees with the grammar: where the grammar gives a
    /// tree, it is returned and the parser stands after it; elsewhere an
    /// error is returned.
    pub open spec fn gives(after: &Self, r: Result<Node, ParseError>, p: Option<(Node, int)>, ts: Seq<Token>) -> bool {
        match p {
            Some((n, j)) => r == Ok::<Node, ParseError>(n) && after.at(ts, j),
            None => r is Err,
        }
    }

    /// A parser stands at the start of at most one token sequence.
    proof fn lemma_same_stream(p: Self, a: Seq<Token>, b: Seq<Token>)
        requires
            p.at(a, 0),
            exists|x: Seq<Token>| p.at(x, 0),
        ensures
            p.at(b, 0) ==> a == b,
    {
        if p.at(b, 0) {
            assert forall|m: int| 0 <= m < a.len() && m < b.len() implies a[m] == b[m] by {
                if m > 0 {
                    assert(nth(p.lexer, (m - 0 - 1) as nat).token_at() == Ok::<Token, TokenErr>(a[m]));
                    assert(nth(p.lexer, (m - 0 - 1) as nat).token_at() == Ok::<Token, TokenErr>(b[m]));
                }
            }
            if a.len() < b.len() {
                assert(a[a.len() - 1] == b[a.len() - 1]);
            } else if b.len() < a.len() {
                assert(a[b.len() - 1] == b[b.len() - 1]);
            }
            assert(a =~= b);
        }
    }

    /// The token now under the parser.
    pub closed spec fn current(&self) -> Token {
        self.cur
    }

    /// A parser at the first token of the lexer.
    pub fn new(lexer: T) -> (r: Result<Self, ParseError>)
        ensures
            r is Ok <==> lexer.token_at() is Ok,
            r matches Ok(p) ==> Ok::<Token, TokenErr>(p.current()) == lexer.token_at(),
            r matches Err(e) ==> e == ParseError::Token(lexer.token_at()->Err_0),
            forall|ts: Seq<Token>|
                #[trigger] yields(lexer, ts) && ends(ts) && (forall|m: int| 0 <= m < ts.len() - 1 ==> #[trigger] ts[m] != Token::EOF)
                    ==> r is Ok && r->Ok_0.at(ts, 0),
    {
        let ghost l0 = lexer;
        let mut lexer = lexer;
        match lexer.next() {
            Ok(cur) => {
                let p = Parser { cur, lexer };
                proof {
                    assert forall|ts: Seq<Token>|
                        #[trigger] yields(l0, ts) && ends(ts) && (forall|m: int| 0 <= m < ts.len() - 1 ==> #[trigger] ts[m] != Token::EOF)
                        implies p.at(ts, 0) by {
                        assert(nth(l0, 0) == l0);
                        let z: int = 0;
                        assert(0 <= z < ts.len());
                        assert(nth(l0, z as nat).token_at() == Ok::<Token, TokenErr>(ts[z]));
                        assert(z as nat == 0);
                        assert forall|m: int| 0 < m < ts.len() implies #[trigger] nth(p.lexer, (m - 0 - 1) as nat).token_at() == Ok::<Token, TokenErr>(ts[m]) by {
                            assert(nth(l0, m as nat).token_at() == Ok::<Token, TokenErr>(ts[m]));
                            assert(nth(l0, m as nat) == nth(l0.after(), (m - 0 - 1) as nat));
                        }
                    }
                }
                Ok(p)
            },
            Err(e) => {
                proof {
                    assert forall|ts: Seq<Token>|
                        #[trigger] yields(l0, ts) && ends(ts) && (forall|m: int| 0 <= m < ts.len() - 1 ==> #[trigger] ts[m] != Token::EOF)
                        implies false by {
                        assert(nth(l0, 0) == l0);
                        let z: int = 0;
                        assert(0 <= z < ts.len());
                        assert(nth(l0, z as nat).token_at() == Ok::<Token, TokenErr>(ts[z]));
                        assert(z as nat == 0);
                    }
                }
                Err(ParseError::Token(e))
            },
        }
    }

    /// Moves to the next token and returns the one that was current.
    fn advance(&mut self) -> (r: Result<Token, ParseError>)
        ensures
            final(self).measure() <= old(self).measure(),
            old(self).cur != Token::EOF ==> final(self).measure() < old(self).measure(),
            r matches Ok(t) ==> t == old(self).cur,
            r is Ok <==> old(self).lexer.token_at() is Ok,
            r is Ok ==> Ok::<Token, TokenErr>(final(self).cur) == old(self).lexer.token_at(),
            r matches Err(e) ==> e == ParseError::Token(old(self).lexer.token_at()->Err_0),
            forall|ts: Seq<Token>, i: int| #[trigger] old(self).at(ts, i) && i + 1 < ts.len() ==> r == Ok::<Token, ParseError>(ts[i]) && final(self).at(ts, i + 1),
    {
        let temp = self.cur;
        match self.lexer.next() {
            Ok(t) => {
                self.cur = t;
                proof {
                    assert forall|ts: Seq<Token>, i: int| #[trigger] old(self).at(ts, i) && i + 1 < ts.len() implies self.at(ts, i + 1) by {
                        assert(nth(old(self).lexer, ((i + 1) - i - 1) as nat).token_at() == Ok::<Token, TokenErr>(ts[i + 1]));
                        assert(((i + 1) - i - 1) as nat == 0);
                        assert(nth(old(self).lexer, 0) == old(self).lexer);
                        assert(self.cur == ts[i + 1]);
                        assert(self.lexer == old(self).lexer.after());
                        assert forall|m: int| i + 1 < m < ts.len() implies #[trigger] nth(self.lexer, (m - (i + 1) - 1) as nat).token_at() == Ok::<Token, TokenErr>(ts[m]) by {
                            assert(nth(old(self).lexer, (m - i - 1) as nat).token_at() == Ok::<Token, TokenErr>(ts[m]));
                            assert(nth(old(self).lexer, (m - i - 1) as nat) == nth(old(self).lexer.after(), (m - (i + 1) - 1) as nat));
                        }
                    }
                }
                Ok(temp)
            },
            Err(e) => {
                proof {
                    assert forall|ts: Seq<Token>, i: int| #[trigger] old(self).at(ts, i) && i + 1 < ts.len() implies false by {
                        assert(nth(old(self).lexer, ((i + 1) - i - 1) as nat).token_at() == Ok::<Token, TokenErr>(ts[i + 1]));
                        assert(((i + 1) - i - 1) as nat == 0);
                    }
                }
                Err(ParseError::Token(e))
            },
        }
    }

    /// Moves past the current token, which must be `token`.
    fn consume(&mut self, token: Token, caller: &str) -> (r: Result<(), ParseError>)
        ensures
            final(self).measure() <= old(self).measure(),
            r is Ok ==> old(self).cur == token,
            r is Ok && token != Token::EOF ==> final(self).measure() < old(self).measure(),
            r is Err && old(self).cur != token ==> r->Err_0 is Parse,
            forall|ts: Seq<Token>, i: int|
                #[trigger] old(self).at(ts, i) && ts[i] == token && i + 1 < ts.len() ==> r is Ok && final(self).at(ts, i + 1),
    {
        if token == self.cur {
            self.advance()?;
            Ok(())
        } else {
            let expected = token_text(token);
            let got = token_text(self.cur);
            Err(parse_error(&[caller, ": Expected ", expected.as_str(), " but got ", got.as_str()]))
        }
    }

    /// Parses a whole specification: quoted patterns, each followed by its
    /// name and a semicolon, up to the end of input. Every named pattern is
    /// one the automaton builder accepts.
    pub fn parse(&mut self) -> (r: Result<Vec<Match>, ParseError>)
        ensures
            r matches Ok(ms) ==> forall|k: int|
                0 <= k < ms@.len() && (#[trigger] ms@[k]).name@.len() > 0 ==> ms@[k].root.wf(),
            r is Ok ==> final(self).current() == Token::EOF,
            old(self).current() == Token::EOF ==> r is Ok && r->Ok_0@.len() == 0,
            old(self).current() != Token::EOF && old(self).current() != Token::GROUP(Group::DBQ) ==> (r is Err
                && r->Err_0 is Parse),
            forall|ts: Seq<Token>| #[trigger] old(self).at(ts, 0) ==> match p_patterns(ts, 0, Seq::empty()) {
                Some(v) => r is Ok && pattern_view(r->Ok_0@) == v,
                None => r is Err,
            },
    {
        let ghost start = *self;
        let ghost ts: Seq<Token> = choose|ts: Seq<Token>| start.at(ts, 0);
        let ghost mut j: int = 0;
        let mut matches: Vec<Match> = Vec::new();
        proof {
            assert(pattern_view(matches@) =~= Seq::<(Node, Seq<char>)>::empty());
            assert forall|ts2: Seq<Token>| #[trigger] start.at(ts2, 0) implies ts2 == ts by {
                Self::lemma_same_stream(start, ts2, ts);
            }
        }
        while self.cur == Token::GROUP(Group::DBQ)
            invariant
                start == *old(self),
                forall|ts2: Seq<Token>| #[trigger] start.at(ts2, 0) ==> ts2 == ts,
                start.at(ts, 0) ==> self.at(ts, j) && 0 <= j < ts.len() && p_patterns(ts, 0, Seq::empty()) == p_patterns(ts, j, pattern_view(matches@)),
                old(self).cur != Token::GROUP(Group::DBQ) ==> self.cur == old(self).cur && matches@.len() == 0,
                forall|k: int|
                    0 <= k < matches@.len() && (#[trigger] matches@[k]).name@.len() > 0 ==> matches@[k].root.wf(),
            decreases self.measure(),
        {
            let ghost j0 = j;
            let ghost view = pattern_view(matches@);
            proof {
                if start.at(ts, 0) {
                    assert(ts[j0] == Token::GROUP(Group::DBQ));
                    assert(j0 + 1 < ts.len());
                    lemma_positions(ts, j0 + 1);
                    assert(p_patterns(ts, j0, view) == match p_expr(ts, j0 + 1) {
                        Some((n, je)) => if tk(ts, je) == Token::GROUP(Group::DBQ) && j0 < je <= ts.len() {
                            match p_name(ts, je + 1, Seq::empty()) {
                                Some((nm, k)) => if j0 < k <= ts.len() {
                                    p_patterns(ts, k, view.push((n, nm)))
                                } else {
                                    None
                                },
                                None => None,
                            }
                        } else {
                            None
                        },
                        None => None,
                    });
                }
            }
            self.consume(Token::GROUP(Group::DBQ), "Parse")?;
            let root = self.expr(Ghost(ts), Ghost(j0 + 1))?;
            let ghost je = match p_expr(ts, j0 + 1) {
                Some((_, j1)) => j1,
                None => 0,
            };
            proof {
                if start.at(ts, 0) && je + 1 < ts.len() {
                    lemma_positions(ts, je + 1);
                }
            }
            self.consume(Token::GROUP(Group::DBQ), "Parse")?;
            let name = self.name(Ghost(ts), Ghost(je + 1))?;
            proof {
                j = match p_name(ts, je + 1, Seq::empty()) {
                    Some((_, j1)) => j1,
                    None => 0,
                };
            }
            let ghost before = matches@;
            matches.push(Match { root, name });
            proof {
                assert(pattern_view(matches@) =~= pattern_view(before).push((root, name@)));
            }
        }

        if self.cur != Token::EOF {
            let got = token_text(self.cur);
            return Err(parse_error(&["Parse: Expected EOF but got ", got.as_str()]));
        }
        Ok(matches)
    }

    /// Alternatives separated by `|`.
    fn expr(&mut self, Ghost(ts): Ghost<Seq<Token>>, Ghost(i): Ghost<int>) -> (r: Result<Node, ParseError>)
        ensures
            final(self).measure() <= old(self).measure(),
            r matches Ok(n) ==> n.wf() && final(self).measure() < old(self).measure(),
            old(self).at(ts, i) ==> Self::gives(final(self), r, p_expr(ts, i), ts),
        decreases old(self).measure(), 3nat,
    {
        let ghost start = *self;
        proof {
            if start.at(ts, i) {
                lemma_positions(ts, i);
            }
        }
        let mut root = self.term(Ghost(ts), Ghost(i))?;
        let ghost mut j: int = match p_term(ts, i) {
            Some((_, j1)) => j1,
            None => 0,
        };
        while self.cur == Token::OP(Op::BAR)
            invariant
                root.wf(),
                self.measure() < old(self).measure(),
                start == *old(self),
                start.at(ts, i) ==> self.at(ts, j) && i < j < ts.len() && p_expr(ts, i) == p_expr_more(ts, j, root),
            decreases self.measure(),
        {
            let ghost j0 = j;
            proof {
                if start.at(ts, i) {
                    lemma_positions(ts, j0);
                    assert(ts[j0] != Token::EOF);
                    assert(j0 + 1 < ts.len());
                    lemma_positions(ts, j0 + 1);
                    assert(tk(ts, j0) == Token::OP(Op::BAR));
                    assert(p_expr_more(ts, j0, root) == match p_term(ts, j0 + 1) {
                        Some((n, j1)) => if j0 < j1 <= ts.len() {
                            p_expr_more(ts, j1, Node::BinaryExpr(BinaryExprNode { op: Op::BAR, left: Box::new(root), right: Box::new(n) }))
                        } else {
                            None
                        },
                        None => None,
                    });
                }
            }
            self.advance()?;
            let term = self.term(Ghost(ts), Ghost(j0 + 1))?;
            proof {
                j = match p_term(ts, j0 + 1) {
                    Some((_, j1)) => j1,
                    None => 0,
                };
            }
            root = Node::BinaryExpr(BinaryExprNode { op: Op::BAR, left: Box::new(root), right: Box::new(term) });
        }
        Ok(root)
    }

    /// A concatenation of factors.
    fn term(&mut self, Ghost(ts): Ghost<Seq<Token>>, Ghost(i): Ghost<int>) -> (r: Result<Node, ParseError>)
        ensures
            final(self).measure() <= old(self).measure(),
            r matches Ok(n) ==> n.wf() && final(self).measure() < old(self).measure(),
            old(self).at(ts, i) ==> Self::gives(final(self), r, p_term(ts, i), ts),
        decreases old(self).measure(), 2nat,
    {
        let ghost start = *self;
        proof {
            if start.at(ts, i) {
                lemma_positions(ts, i);
            }
        }
        let mut root = self.factor(Ghost(ts), Ghost(i))?;
        let ghost mut j: int = match p_factor(ts, i) {
            Some((_, j1)) => j1,
            None => 0,
        };
        while starts_factor(self.cur)
            invariant
                root.wf(),
                self.measure() < old(self).measure(),
                start == *old(self),
                start.at(ts, i) ==> self.at(ts, j) && i < j < ts.len() && p_term(ts, i) == p_term_more(ts, j, root),
            decreases self.measure(),
        {
            let ghost j0 = j;
            proof {
                if start.at(ts, i) {
                    lemma_positions(ts, j0);
                    assert(starts_factor_spec(tk(ts, j0)));
                    assert(p_term_more(ts, j0, root) == match p_factor(ts, j0) {
                        Some((n, j1)) => if j0 < j1 <= ts.len() {
                            p_term_more(ts, j1, Node::BinaryExpr(BinaryExprNode { op: Op::AND, left: Box::new(root), right: Box::new(n) }))
                        } else {
                            None
                        },
                        None => None,
                    });
                }
            }
            let node = self.factor(Ghost(ts), Ghost(j0))?;
            proof {
                j = match p_factor(ts, j0) {
                    Some((_, j1)) => j1,
                    None => 0,
                };
            }
            root = Node::BinaryExpr(BinaryExprNode { op: Op::AND, left: Box::new(root), right: Box::new(node) });
        }
        Ok(root)
    }

    /// An atom, possibly repeated by `*`, `+` or `?`.
    fn factor(&mut self, Ghost(ts): Ghost<Seq<Token>>, Ghost(i): Ghost<int>) -> (r: Result<Node, ParseError>)
        ensures
            final(self).measure() <= old(self).measure(),
            r matches Ok(n) ==> n.wf() && final(self).measure() < old(self).measure(),
            old(self).at(ts, i) ==> Self::gives(final(self), r, p_factor(ts, i), ts),
        decreases old(self).measure(), 1nat,
    {
        proof {
            if old(self).at(ts, i) {
                lemma_positions(ts, i);
            }
        }
        let node = self.atom(Ghost(ts), Ghost(i))?;
        if let Token::OP(op) = self.cur {
            if op == Op::QUESTION || op == Op::STAR || op == Op::PLUS {
                let root = UnaryExprNode { op, child: Box::new(node) };
                self.consume(Token::OP(op), "Factor")?;
                return Ok(Node::UnaryExpr(root));
            }
        }
        Ok(node)
    }

    /// A character, a parenthesised expression or a bracket expression.
    fn atom(&mut self, Ghost(ts): Ghost<Seq<Token>>, Ghost(i): Ghost<int>) -> (r: Result<Node, ParseError>)
        ensures
            final(self).measure() <= old(self).measure(),
            r matches Ok(n) ==> n.wf() && final(self).measure() < old(self).measure(),
            old(self).cur is CHAR && r is Ok ==> r->Ok_0 == Node::Char(old(self).cur->CHAR_0),
            old(self).at(ts, i) ==> Self::gives(final(self), r, p_atom(ts, i), ts),
        decreases old(self).measure(), 0nat,
    {
        proof {
            if old(self).at(ts, i) {
                lemma_positions(ts, i);
                if i + 1 < ts.len() {
                    lemma_positions(ts, i + 1);
                }
            }
        }
        let token = self.advance()?;
        match token {
            Token::GROUP(Group::LPR) => {
                let node = self.expr(Ghost(ts), Ghost(i + 1))?;
                self.consume(Token::GROUP(Group::RPR), "Atom")?;
                Ok(node)
            },
            Token::CHAR(c) => {
                if (c as u32) < 256 {
                    Ok(Node::Char(c))
                } else {
                    Err(parse_error(&["Atom: character outside the byte alphabet"]))
                }
            },
            Token::GROUP(Group::LBR) => self.bracketed(Ghost(ts), Ghost(i + 1)),
            _ => {
                let got = token_text(token);
                Err(parse_error(&["Atom: Expected CHAR, [, (, but found ", got.as_str()]))
            },
        }
    }

    /// The inside of `[...]`, after the `[`: characters and ranges,
    /// alternated.
    fn bracketed(&mut self, Ghost(ts): Ghost<Seq<Token>>, Ghost(i): Ghost<int>) -> (r: Result<Node, ParseError>)
        ensures
            old(self).at(ts, i) ==> Self::gives(final(self), r, p_bracket(ts, i, None), ts),
            final(self).measure() <= old(self).measure(),
            r matches Ok(n) ==> n.wf() && is_bracket_list(n),
            old(self).cur == Token::GROUP(Group::RBR) ==> r is Err,
            !(old(self).cur is CHAR) && old(self).cur != Token::GROUP(Group::RBR) ==> r is Err && r->Err_0 is Parse,
        decreases old(self).measure(), 1nat,
    {
        let ghost start = *self;
        let mut root: Option<Node> = None;
        let ghost mut j: int = i;
        loop
            invariant
                start == *old(self),
                start.at(ts, i) ==> self.at(ts, j) && i <= j < ts.len() && p_bracket(ts, i, None) == p_bracket(ts, j, root),
                root is None ==> self.cur == old(self).cur,
                (old(self).cur is CHAR) || root is None,
                self.measure() <= old(self).measure(),
                root matches Some(n) ==> n.wf() && is_bracket_list(n),
            ensures
                start.at(ts, i) ==> self.at(ts, j) && i <= j < ts.len() && p_bracket(ts, i, None) == p_bracket(ts, j, root),
                self.cur == Token::GROUP(Group::RBR),
                (old(self).cur is CHAR) || root is None,
                root is None ==> self.cur == old(self).cur,
            decreases self.measure(),
        {
            match self.cur {
                Token::CHAR(_) => {
                    let ghost j0 = j;
                    proof {
                        if start.at(ts, i) {
                            lemma_positions(ts, j0);
                            assert(nth(self.lexer, ((j0 + 1) - j0 - 1) as nat).token_at() == Ok::<Token, TokenErr>(ts[j0 + 1]));
                            assert(((j0 + 1) - j0 - 1) as nat == 0);
                            assert(nth(self.lexer, 0) == self.lexer);
                        }
                    }
                    let res = match self.lexer.peek() {
                        Ok(Token::OP(Op::DASH)) => self.dash(Ghost(ts), Ghost(j0))?,
                        Ok(Token::CHAR(_)) => self.atom(Ghost(ts), Ghost(j0))?,
                        Ok(Token::GROUP(Group::RBR)) => self.atom(Ghost(ts), Ghost(j0))?,
                        Ok(t) => {
                            let got = token_text(t);
                            return Err(parse_error(&["Expected Char or Dash got ", got.as_str()]));
                        },
                        Err(e) => return Err(ParseError::Token(e)),
                    };
                    proof {
                        let item = if tk(ts, j0 + 1) == Token::OP(Op::DASH) {
                            p_dash(ts, j0)
                        } else {
                            p_atom(ts, j0)
                        };
                        j = match item {
                            Some((_, j1)) => j1,
                            None => 0,
                        };
                    }
                    root = match root {
                        None => Some(res),
                        Some(node) => Some(
                            Node::BinaryExpr(BinaryExprNode { left: Box::new(node), right: Box::new(res), op: Op::BAR }),
                        ),
                    };
                },
                Token::GROUP(Group::RBR) => break,
                t => {
                    let got = token_text(t);
                    return Err(parse_error(&["Expected ] or Char got ", got.as_str()]));
                },
            }
        }
        let ghost jb = j;
        self.consume(Token::GROUP(Group::RBR), "Dashes")?;
        assert(start.at(ts, i) && root is Some ==> self.at(ts, jb + 1));
        match root {
            None => Err(parse_error(&["Invalid Bracketed Expression"])),
            Some(node) => Ok(node),
        }
    }

    /// A range `a-b` of digits or of letters, in ascending order, within
    /// the byte alphabet.
    fn dash(&mut self, Ghost(ts): Ghost<Seq<Token>>, Ghost(i): Ghost<int>) -> (r: Result<Node, ParseError>)
        requires
            old(self).cur is CHAR,
        ensures
            old(self).at(ts, i) ==> Self::gives(final(self), r, p_dash(ts, i), ts),
            final(self).measure() < old(self).measure(),
            r matches Ok(n) ==> n.wf(),
            r matches Ok(n) ==> is_range(n),
        decreases old(self).measure(), 0nat,
    {
        let c = self.advance()?.char();
        let digits = '0' <= c && c <= '9';
        if !digits && !is_alphabetic(c) {
            let t = token_text(Token::CHAR(c));
            return Err(parse_error(&["Dash: Expected Alphanumeric but got ", t.as_str()]));
        }
        self.consume(Token::OP(Op::DASH), "Dash")?;
        let d = match self.advance()? {
            Token::CHAR(d) => d,
            t => {
                let got = token_text(t);
                return Err(parse_error(&["Dash: Expected CHAR but got ", got.as_str()]));
            },
        };
        if digits && !('0' <= d && d <= '9') {
            let t = token_text(Token::CHAR(d));
            return Err(parse_error(&["Dash: Expected Num-Num but got Num-", t.as_str()]));
        }
        if !digits && !is_alphabetic(d) {
            let t = token_text(Token::CHAR(d));
            return Err(parse_error(&["Dash: Expected Alpha-Alpha but got Alpha-", t.as_str()]));
        }
        if !(c <= d && (d as u32) < 256) {
            return Err(parse_error(&["Dash: range out of order or outside the byte alphabet"]));
        }
        Ok(Node::BinaryExpr(BinaryExprNode { op: Op::DASH, left: Box::new(Node::Char(c)), right: Box::new(Node::Char(d)) }))
    }

    /// The name after a pattern, up to its semicolon.
    fn name(&mut self, Ghost(ts): Ghost<Seq<Token>>, Ghost(i): Ghost<int>) -> (r: Result<String, ParseError>)
        ensures
            final(self).measure() <= old(self).measure(),
            r is Ok ==> final(self).measure() < old(self).measure(),
            old(self).at(ts, i) ==> match p_name(ts, i, Seq::empty()) {
                Some((nm, j)) => r is Ok && r->Ok_0@ == nm && final(self).at(ts, j),
                None => r is Err,
            },
    {
        let ghost start = *self;
        let mut name = String::new();
        let ghost mut j: int = i;
        while is_char(self.cur)
            invariant
                self.measure() <= old(self).measure(),
                start == *old(self),
                start.at(ts, i) ==> self.at(ts, j) && i <= j < ts.len() && p_name(ts, i, Seq::empty()) == p_name(ts, j, name@),
            decreases self.measure(),
        {
            let ghost j0 = j;
            proof {
                if start.at(ts, i) {
                    assert(j0 + 1 < ts.len());
                }
            }
            crate::text::push_char(&mut name, self.cur.char());
            self.advance()?;
            proof {
                j = j0 + 1;
            }
        }
        self.consume(Token::SEMI, "Name")?;
        Ok(name)
    }
}

} // verus!
