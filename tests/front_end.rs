use rflex::ast::{Match, Node};
use rflex::lexer::{Group, Lexer, Op, Token, TokenErr, TokenGiver};
use rflex::parser::{token_text, ParseError, Parser};

fn lex_all(text: &str) -> Result<Vec<Token>, TokenErr> {
    let mut lx = Lexer::new(text.chars().collect());
    let mut out = Vec::new();
    loop {
        let tk = lx.next()?;
        out.push(tk);
        if tk == Token::EOF {
            return Ok(out);
        }
    }
}

fn parse(text: &str) -> Result<Vec<Match>, ParseError> {
    let lexer = Lexer::new(text.chars().collect());
    let mut parser = Parser::new(lexer)?;
    parser.parse()
}

#[test]
fn right_wrong() {
    let right = [
        "\"a\" A;\n",
        "# a comment\n\"(a|b)*c+\" WORD;\n\" |\\t|\\n\";\n",
        "\"[a-z0-9]\" ID;\n\"\\\\\\-\\*\" ESC;\n",
        "",
    ];
    let wrong = ["\"a\\q\" A;", "\\", "a\\*b", "\"ab\\"];
    for text in right {
        let mut lx = Lexer::new(text.chars().collect());
        loop {
            match lx.next() {
                Ok(tk) => {
                    if tk != Token::EOF {
                        continue;
                    }
                    break;
                }
                Err(tk) => {
                    println!("{:?}", tk);
                    assert!(false, "{text:?} should lex");
                }
            }
        }
    }
    for text in wrong {
        let mut lx = Lexer::new(text.chars().collect());
        let mut failed = false;
        loop {
            match lx.next() {
                Ok(tk) => {
                    if tk == Token::EOF {
                        break;
                    }
                }
                Err(tk) => {
                    println!("{:?}", tk);
                    failed = true;
                    break;
                }
            }
        }
        assert!(failed, "{text:?} should not lex");
    }
}

#[test]
fn lexer_tokens_of_a_pattern() {
    let toks = lex_all("\"a|b*\" X;").unwrap();
    assert_eq!(
        toks,
        vec![
            Token::GROUP(Group::DBQ),
            Token::CHAR('a'),
            Token::OP(Op::BAR),
            Token::CHAR('b'),
            Token::OP(Op::STAR),
            Token::GROUP(Group::DBQ),
            Token::CHAR('X'),
            Token::SEMI,
            Token::EOF,
        ]
    );
}

#[test]
fn lexer_spaces_count_only_inside_quotes() {
    let toks = lex_all("\" \" ;").unwrap();
    assert_eq!(toks, vec![Token::GROUP(Group::DBQ), Token::CHAR(' '), Token::GROUP(Group::DBQ), Token::SEMI, Token::EOF]);
}

#[test]
fn lexer_escapes() {
    let toks = lex_all("\"\\n\\t\\*\"").unwrap();
    assert_eq!(toks[1], Token::CHAR('\n'));
    assert_eq!(toks[2], Token::CHAR('\t'));
    assert_eq!(toks[3], Token::CHAR('*'));
    assert_eq!(lex_all("\"\\q\"").unwrap_err(), TokenErr::InvalidEscape);
    assert_eq!(lex_all("\\*").unwrap_err(), TokenErr::InvalidExpr);
    assert_eq!(lex_all("\"\\").unwrap_err(), TokenErr::InvalidExpr);
}

#[test]
fn lexer_question_mark_is_an_operator() {
    let toks = lex_all("\"a?\"").unwrap();
    assert_eq!(toks[2], Token::OP(Op::QUESTION));
}

#[test]
fn token_char_reads_the_character() {
    assert_eq!(Token::CHAR('q').char(), 'q');
}

#[test]
fn parser_builds_names_and_trees() {
    let ms = parse("\"ab|c\" WORD; \" \";").unwrap();
    assert_eq!(ms.len(), 2);
    assert_eq!(ms[0].name, "WORD");
    assert_eq!(ms[1].name, "");
    assert!(ms[1].root.is_whitespace_pattern());
    assert!(!ms[0].root.is_whitespace_pattern());
}

#[test]
fn ast() {
    let ms = parse("\"ab|c*\" X;").unwrap();
    let expected = "<BAR>\n  <AND>\n    <\"a\"> </\"a\">\n    <\"b\"> </\"b\">\n  </AND>\n  <STAR>\n    <\"c\"> </\"c\">\n  </STAR>\n</BAR>\n";
    assert_eq!(ms[0].root.to_string().trim(), expected.trim());
}

#[test]
fn ast_escapes_leaves() {
    let n = Node::Char('\n');
    assert_eq!(n.to_string(), "<\"\\n\"> </\"\\n\">\n");
    assert_eq!(n.char(), '\n');
}

#[test]
fn parser_ranges() {
    let ms = parse("\"[a-c0-2x]\" R;").unwrap();
    assert!(matches!(ms[0].root, Node::BinaryExpr(_)));
    assert!(parse("\"[c-a]\" R;").is_err());
    assert!(parse("\"[a-5]\" R;").is_err());
    assert!(parse("\"[1-z]\" R;").is_err());
    assert!(parse("\"[!-~]\" R;").is_err());
    assert!(parse("\"[α-ω]\" R;").is_err());
}

#[test]
fn parser_errors() {
    match parse("\"a\" X") {
        Err(ParseError::Parse(m)) => assert_eq!(m, "Name: Expected SEMI but got EOF"),
        _ => panic!("expected a parse error"),
    }
    match parse("\"(a\" X;") {
        Err(ParseError::Parse(m)) => assert_eq!(m, "Atom: Expected GROUP(RPR) but got GROUP(DBQ)"),
        _ => panic!("expected a parse error"),
    }
    match parse("\"a\\q\" X;") {
        Err(ParseError::Token(e)) => assert_eq!(e, TokenErr::InvalidEscape),
        _ => panic!("expected a token error"),
    }
    assert!(matches!(parse("\"[]\" X;"), Err(ParseError::Parse(_))));
    assert!(matches!(parse("; "), Err(ParseError::Parse(_))));
}

#[test]
fn token_names() {
    assert_eq!(token_text(Token::OP(Op::DASH)), "OP(DASH)");
    assert_eq!(token_text(Token::CHAR('\'')), "CHAR('\\'')");
    assert_eq!(token_text(Token::EOF), "EOF");
}

#[test]
fn parser_plus_tree() {
    let ms = parse("\"a+\" B;").unwrap();
    assert_eq!(ms.len(), 1);
    assert_eq!(ms[0].name, "B");
    match &ms[0].root {
        Node::UnaryExpr(u) => {
            assert_eq!(u.op, Op::PLUS);
            assert!(matches!(*u.child, Node::Char('a')));
        }
        _ => panic!("expected a repetition"),
    }
}

#[test]
fn parser_precedence_and_associativity() {
    let ms = parse("\"ab|c\" X;").unwrap();
    match &ms[0].root {
        Node::BinaryExpr(bar) => {
            assert_eq!(bar.op, Op::BAR);
            assert!(matches!(*bar.right, Node::Char('c')));
            match &*bar.left {
                Node::BinaryExpr(and) => {
                    assert_eq!(and.op, Op::AND);
                    assert!(matches!(*and.left, Node::Char('a')));
                    assert!(matches!(*and.right, Node::Char('b')));
                }
                _ => panic!("expected a concatenation"),
            }
        }
        _ => panic!("expected an alternation"),
    }
}

#[test]
fn parser_trailing_token_and_lexer_errors() {
    assert!(matches!(parse("\"a\" A; )"), Err(ParseError::Parse(_))));
    assert!(matches!(parse("\"a\" A; \"\\q\" B;"), Err(ParseError::Token(TokenErr::InvalidEscape))));
}
