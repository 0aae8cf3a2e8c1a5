//! The pattern syntax tree handed from the front end to the automaton builder.
use vstd::prelude::*;

use crate::lexer::Op;
use crate::parser::op_name;
use crate::text::{push_char, push_str, repeat};

verus! {

/// One node of a pattern's syntax tree.
pub enum Node {
    Char(char),
    BinaryExpr(BinaryExprNode),
    UnaryExpr(UnaryExprNode),
}

/// An alternation, a range or a concatenation of two subtrees.
pub struct BinaryExprNode {
    pub left: Box<Node>,
    pub right: Box<Node>,
    pub op: Op,
}

/// A repetition (`*`, `+`) or an option (`?`) of one subtree.
pub struct UnaryExprNode {
    pub child: Box<Node>,
    pub op: Op,
}

/// A named pattern; the empty name marks the whitespace pattern.
pub struct Match {
    pub root: Node,
    pub name: String,
}

/// A character that the byte alphabet can hold.
pub open spec fn is_byte(c: char) -> bool {
    (c as u32) < 256
}

impl Node {
    /// The tree is built only from the operators the automaton builder knows:
    /// a range joins two byte leaves in ascending order, every leaf is a byte.
    pub open spec fn wf(&self) -> bool
        decreases self,
    {
        match self {
            Node::Char(c) => is_byte(*c),
            Node::BinaryExpr(n) => match n.op {
                Op::BAR => n.left.wf() && n.right.wf(),
                Op::AND => n.left.wf() && n.right.wf(),
                Op::DASH => match (*n.left, *n.right) {
                    (Node::Char(a), Node::Char(b)) => a <= b && is_byte(b),
                    _ => false,
                },
                _ => false,
            },
            Node::UnaryExpr(n) => match n.op {
                Op::STAR => n.child.wf(),
                Op::PLUS => n.child.wf(),
                Op::QUESTION => n.child.wf(),
                _ => false,
            },
        }
    }

    /// The shape allowed for the whitespace pattern: one byte, or an
    /// alternation of such shapes.
    pub open spec fn is_whitespace_shape(&self) -> bool
        decreases self,
    {
        match self {
            Node::Char(c) => is_byte(*c),
            Node::BinaryExpr(n) => n.op == Op::BAR && n.left.is_whitespace_shape()
                && n.right.is_whitespace_shape(),
            Node::UnaryExpr(_) => false,
        }
    }

    /// The character of a leaf.
    pub fn char(&self) -> (c: char)
        requires
            self is Char,
        ensures
            *self == Node::Char(c),
    {
        match self {
            Node::Char(c) => *c,
            _ => 'a',
        }
    }
}

impl Match {
    /// A pattern the automaton builder accepts.
    pub open spec fn wf(&self) -> bool {
        if self.name@.len() == 0 {
            self.root.is_whitespace_shape()
        } else {
            self.root.wf()
        }
    }
}


/// What `char::escape_debug` makes of a character.
pub uninterp spec fn debug_escaped(c: char) -> Seq<char>;

/// Relies on `char::escape_debug`: the character as `Debug` writes it
/// inside quotes; the result depends on the character alone.
#[verifier::external_body]
fn escape_debug(c: char) -> (r: String)
    ensures
        r@ == debug_escaped(c),
{
    c.escape_debug().to_string()
}

/// The indented XML-like rendering of a tree at nesting `depth`: two
/// spaces per level, an element per operator, an empty element per leaf.
pub open spec fn xml(n: Node, depth: nat) -> Seq<char>
    decreases n,
{
    let tabs = repeat(' ', 2 * depth);
    match n {
        Node::BinaryExpr(b) => tabs + "<"@ + op_name(b.op) + ">\n"@ + xml(*b.left, depth + 1) + xml(*b.right, depth + 1)
            + tabs + "</"@ + op_name(b.op) + ">\n"@,
        Node::UnaryExpr(u) => tabs + "<"@ + op_name(u.op) + ">\n"@ + xml(*u.child, depth + 1) + tabs + "</"@ + op_name(
            u.op,
        ) + ">\n"@,
        Node::Char(c) => tabs + "<\""@ + debug_escaped(c) + "\"> </\""@ + debug_escaped(c) + "\">\n"@,
    }
}

/// The depth of the tree.
pub open spec fn height(n: Node) -> nat
    decreases n,
{
    match n {
        Node::BinaryExpr(b) => 1 + vstd::math::max(height(*b.left) as int, height(*b.right) as int) as nat,
        Node::UnaryExpr(u) => 1 + height(*u.child),
        Node::Char(_) => 1,
    }
}

/// The text of an operator as its `Debug` form writes it.
fn op_text(o: Op) -> (r: &'static str)
    ensures
        r@ == op_name(o),
{
    match o {
        Op::STAR => "STAR",
        Op::PLUS => "PLUS",
        Op::QUESTION => "QUESTION",
        Op::BAR => "BAR",
        Op::DASH => "DASH",
        Op::AND => "AND",
    }
}

/// Appends an opening or closing tag for an operator, after the indentation.
fn push_tag(out: &mut String, tabs: &str, open: &str, o: Op)
    ensures
        final(out)@ == old(out)@ + tabs@ + open@ + op_name(o) + ">\n"@,
{
    push_str(out, tabs);
    push_str(out, open);
    push_str(out, op_text(o));
    push_str(out, ">\n");
    assert(out@ =~= old(out)@ + tabs@ + open@ + op_name(o) + ">\n"@);
}

impl Node {
    /// The tree rendered as indented XML-like text.
    pub fn to_string(&self) -> (r: String)
        requires
            height(*self) < u32::MAX,
        ensures
            r@ == xml(*self, 0),
    {
        let mut out = String::new();
        self._print(self, 0, &mut out);
        out
    }

    /// Appends the rendering of `node` at nesting `depth`.
    fn _print(&self, node: &Node, depth: u32, out: &mut String)
        requires
            depth + height(*node) <= u32::MAX,
        ensures
            final(out)@ == old(out)@ + xml(*node, depth as nat),
        decreases node, 1nat,
    {
        let mut tabs = String::new();
        for i in 0..depth
            invariant
                tabs@ == repeat(' ', 2 * i as nat),
        {
            push_char(&mut tabs, ' ');
            push_char(&mut tabs, ' ');
            assert(repeat(' ', (2 * i + 2) as nat) == repeat(' ', (2 * i + 1) as nat).push(' '));
            assert(repeat(' ', (2 * i + 1) as nat) == repeat(' ', 2 * i as nat).push(' '));
        }
        match node {
            Node::BinaryExpr(n) => self.print_binary(n, depth, tabs.as_str(), out),
            Node::UnaryExpr(n) => self.print_unary(n, depth, tabs.as_str(), out),
            Node::Char(c) => {
                let e = escape_debug(*c);
                push_str(out, tabs.as_str());
                push_str(out, "<\"");
                push_str(out, e.as_str());
                push_str(out, "\"> </\"");
                push_str(out, e.as_str());
                push_str(out, "\">\n");
                assert(out@ =~= old(out)@ + xml(*node, depth as nat));
            },
        }
    }

    fn print_binary(&self, n: &BinaryExprNode, depth: u32, tabs: &str, out: &mut String)
        requires
            depth + height(Node::BinaryExpr(*n)) <= u32::MAX,
            tabs@ == repeat(' ', 2 * depth as nat),
        ensures
            final(out)@ == old(out)@ + xml(Node::BinaryExpr(*n), depth as nat),
        decreases n, 0nat,
    {
        push_tag(out, tabs, "<", n.op);
        self._print(&n.left, depth + 1, out);
        self._print(&n.right, depth + 1, out);
        push_tag(out, tabs, "</", n.op);
        assert(out@ =~= old(out)@ + xml(Node::BinaryExpr(*n), depth as nat));
    }

    fn print_unary(&self, n: &UnaryExprNode, depth: u32, tabs: &str, out: &mut String)
        requires
            depth + height(Node::UnaryExpr(*n)) <= u32::MAX,
            tabs@ == repeat(' ', 2 * depth as nat),
        ensures
            final(out)@ == old(out)@ + xml(Node::UnaryExpr(*n), depth as nat),
        decreases n, 0nat,
    {
        push_tag(out, tabs, "<", n.op);
        self._print(&n.child, depth + 1, out);
        push_tag(out, tabs, "</", n.op);
        assert(out@ =~= old(out)@ + xml(Node::UnaryExpr(*n), depth as nat));
    }

    /// Whether the tree has the shape the whitespace pattern needs.
    pub fn is_whitespace_pattern(&self) -> (r: bool)
        ensures
            r == self.is_whitespace_shape(),
        decreases self,
    {
        match self {
            Node::Char(c) => (*c as u32) < 256,
            Node::BinaryExpr(n) => n.op == Op::BAR && n.left.is_whitespace_pattern() && n.right.is_whitespace_pattern(),
            Node::UnaryExpr(_) => false,
        }
    }
}
} // verus!
