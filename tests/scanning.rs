use rflex::ast::Match;
use rflex::dfa::DFA;
use rflex::generator::{escape, transition_arms, Arm, Generator, AUTOMATON_TAIL, TOKEN_HEAD};
use rflex::lexer::Lexer;
use rflex::nfa::NFA;
use rflex::parser::Parser;
use rflex::scanner::Scanner;
use rflex::tokenizer::{example_dfa, Lexer as ExampleLexer, Token as ExampleToken, TokenErr as ExampleErr};

fn patterns(text: &str) -> Vec<Match> {
    let lexer = Lexer::new(text.chars().collect());
    let mut parser = Parser::new(lexer).expect("tokens");
    parser.parse().expect("patterns")
}

fn minimal(text: &str) -> DFA {
    let nfa = NFA::build_from_matches(&patterns(text));
    DFA::compress(DFA::subset_construction(nfa).expect("a dead state"))
}

fn scan_all(dfa: DFA, input: &str) -> Vec<(String, String)> {
    let labels = dfa.labels.clone();
    let mut sc = Scanner::new(dfa, input.chars().collect());
    let mut out = Vec::new();
    loop {
        match sc.next() {
            Ok(Some(l)) => out.push((labels[l.label - 1].clone(), l.text)),
            Ok(None) => return out,
            Err(e) => panic!("lexical error at {}:{}", e.line, e.column),
        }
    }
}

#[test]
fn maximal_munch_takes_the_longest_match() {
    let toks = scan_all(minimal("\"a\" A; \"a+\" B;"), "aaa");
    assert_eq!(toks, vec![("B".to_string(), "aaa".to_string())]);
}

#[test]
fn maximal_munch_backtracks_to_the_last_accept() {
    // "ab" is not a token, but "a" is: the scanner reads "ab", then retracts.
    let toks = scan_all(minimal("\"a\" A; \"abc\" C; \"b\" B;"), "abab");
    assert_eq!(
        toks,
        vec![
            ("A".to_string(), "a".to_string()),
            ("B".to_string(), "b".to_string()),
            ("A".to_string(), "a".to_string()),
            ("B".to_string(), "b".to_string()),
        ]
    );
}

#[test]
fn whitespace_is_skipped() {
    let dfa = minimal("\" |\\t\"; \"a\" A; \"b\" B;");
    let toks = scan_all(dfa, "a  b");
    assert_eq!(toks, vec![("A".to_string(), "a".to_string()), ("B".to_string(), "b".to_string())]);
    let toks = scan_all(minimal("\" |\\t\"; \"a\" A; \"b\" B;"), "\t a \t");
    assert_eq!(toks, vec![("A".to_string(), "a".to_string())]);
}

#[test]
fn lexical_error_reports_line_and_column() {
    let dfa = minimal("\" |\\n|\\t\"; \"[a-z]+\" ID;");
    let mut sc = Scanner::new(dfa, "ab\n\t 9x".chars().collect());
    let first = sc.next().expect("a token").expect("not the end");
    assert_eq!(first.text, "ab");
    let err = sc.next().expect_err("no pattern starts with 9");
    assert_eq!(err.line, 2);
    assert_eq!(err.column, 5);
    assert_eq!(err.source_line, "\t 9x");
    assert_eq!(sc.pos, 5);
}

#[test]
fn character_outside_the_alphabet_is_an_error() {
    let mut sc = Scanner::new(minimal("\"[a-z]+\" ID;"), "ab\u{3b1}".chars().collect());
    assert_eq!(sc.next().unwrap().unwrap().text, "ab");
    let err = sc.next().unwrap_err();
    assert_eq!((err.line, err.column), (1, 2));
}

#[test]
fn range_compression_of_a_letter_row() {
    let mut row = [1usize; 256];
    for b in b'a'..=b'z' {
        row[b as usize] = 5;
    }
    let arms = transition_arms(&row, 1, false);
    assert_eq!(arms, vec![Arm { lo: b'a' as usize, hi: b'z' as usize, target: 5 }]);
}

#[test]
fn range_compression_singletons_pairs_and_loops() {
    let mut row = [0usize; 256];
    row[b'x' as usize] = 3;
    row[b'y' as usize] = 3;
    row[b'z' as usize] = 4;
    row[b' ' as usize] = 2;
    row[b'\t' as usize] = 2;
    let dead = 9;
    for b in 0..256 {
        if ![b'x', b'y', b'z', b' ', b'\t'].contains(&(b as u8)) {
            row[b] = dead;
        }
    }
    let arms = transition_arms(&row, dead, false);
    assert_eq!(
        arms,
        vec![
            Arm { lo: 9, hi: 9, target: 2 },
            Arm { lo: 32, hi: 32, target: 2 },
            Arm { lo: 120, hi: 121, target: 3 },
            Arm { lo: 122, hi: 122, target: 4 },
        ]
    );
    row[b'a' as usize] = 0;
    row[b'b' as usize] = 0;
    let arms = transition_arms(&row, dead, true);
    assert_eq!(arms[2], Arm { lo: 97, hi: 97, target: 0 });
    assert_eq!(arms[3], Arm { lo: 98, hi: 98, target: 0 });
}

/// A three-state automaton: state 0 goes to 2 on a lower-case letter,
/// state 2 stays on letters, state 1 is dead.
fn letters_dfa() -> DFA {
    let mut jumps = vec![[1usize; 256]; 3];
    for b in b'a'..=b'z' {
        jumps[0][b as usize] = 2;
        jumps[2][b as usize] = 2;
    }
    jumps[0][b' ' as usize] = 0;
    DFA { ncount: 3, jumps, accepts: vec![0, 0, 1], labels: vec!["ID".to_string()], dead: 1 }
}

#[test]
fn generated_source_has_the_compressed_arms() {
    let dfa = letters_dfa();
    let mut g = Generator::new(&dfa);
    g.generate();
    let src = g.out.clone();
    assert!(src.starts_with(TOKEN_HEAD));
    assert!(src.ends_with(AUTOMATON_TAIL));
    assert!(src.contains("pub enum Token {\n\tID(String),\n\tEOF\n}\n"));
    assert!(src.contains("  accepts: [usize; 3]\n"));
    assert!(src.contains("\t\tlet accepts = [\n\t\t\t   0, \t\t\t   0, \t\t\t   1\n\t\t];\n"));
    assert!(src.contains("\t\t\t\t0 => match c {\n\t\t\t\t\t' ' => continue,\n\t\t\t\t\t'a'..='z' => 2,\n\t\t\t\t\t_ => 1\n\t\t\t\t},\n"));
    assert!(src.contains("\t\t\t\t1 => {\n\t\t\t\t\tstk.push(state);\n"));
    assert!(src.contains("\t\t\t\t2 => match c {\n\t\t\t\t\t'a'..='z' => 2,\n\t\t\t\t\t_ => 1\n\t\t\t\t},\n"));
    assert!(src.contains("\t\t\t1    => return Ok(ID(word)),\n"));
    assert_eq!(g.tabs, 0);
}

#[test]
fn accept_table_five_to_a_line() {
    let mut dfa = letters_dfa();
    dfa.ncount = 6;
    dfa.jumps.extend(vec![[1usize; 256]; 3]);
    dfa.accepts = vec![0, 0, 1, 12, 3, 4];
    let mut g = Generator::new(&dfa);
    g.generate();
    assert!(g.out.contains("\t\tlet accepts = [\n\t\t\t   0, \t\t\t   0, \t\t\t   1, \t\t\t  12, \t\t\t   3,\n\t\t\t   4\n\t\t];"));
}

#[test]
fn escapes_in_literals() {
    assert_eq!(escape('\n'), "\\n");
    assert_eq!(escape('\t'), "\\t");
    assert_eq!(escape('\r'), "\\r");
    assert_eq!(escape('\\'), "\\\\");
    assert_eq!(escape('\''), "\\'");
    assert_eq!(escape('"'), "\\\"");
    assert_eq!(escape('q'), "q");
}

#[test]
fn example_scanner_tokens() {
    let mut lx = ExampleLexer::new("while (for) whilex fo\n".chars().collect());
    assert_eq!(lx.next(), Ok(ExampleToken::WHILE("while".to_string())));
    assert_eq!(lx.next(), Ok(ExampleToken::LPAR("(".to_string())));
    assert_eq!(lx.next(), Ok(ExampleToken::FOR("for".to_string())));
    assert_eq!(lx.next(), Ok(ExampleToken::RPAR(")".to_string())));
    assert_eq!(lx.next(), Ok(ExampleToken::IDENT("whilex".to_string())));
    assert_eq!(lx.next(), Ok(ExampleToken::IDENT("fo".to_string())));
    assert_eq!(lx.next(), Ok(ExampleToken::EOF));
}

#[test]
fn example_scanner_error() {
    let mut lx = ExampleLexer::new("a1 ;".chars().collect());
    assert_eq!(lx.next(), Ok(ExampleToken::IDENT("a1".to_string())));
    let err = ExampleErr { line: 1, column: 3, source_line: "a1 ;".to_string() };
    assert_eq!(lx.next(), Err(err));
    let again = ExampleErr { line: 1, column: 3, source_line: "a1 ;".to_string() };
    assert_eq!(lx.next(), Err(again));
    let mut end = ExampleLexer::new("x  ".chars().collect());
    assert_eq!(end.next(), Ok(ExampleToken::IDENT("x".to_string())));
    assert_eq!(end.next(), Ok(ExampleToken::EOF));
    assert_eq!(end.next(), Ok(ExampleToken::EOF));
}

#[test]
fn example_automaton_shape() {
    let d = example_dfa();
    assert_eq!(d.ncount, 13);
    assert_eq!(d.dead, 1);
    assert_eq!(d.jumps[6][b'h' as usize], 7);
    assert_eq!(d.jumps[0][b'(' as usize], 2);
    assert_eq!(d.accepts[10], 1);
}
