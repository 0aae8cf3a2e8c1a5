use rflex::ast::{BinaryExprNode, Match, Node};
use rflex::lexer::Op;
use rflex::dfa::DFA;
use rflex::lexer::Lexer;
use rflex::nfa::{NFA, NULL};
use rflex::parser::Parser;

fn patterns(text: &str) -> Vec<Match> {
    let lexer = Lexer::new(text.chars().collect());
    let mut parser = Parser::new(lexer).expect("tokens");
    parser.parse().expect("patterns")
}

fn closure(nfa: &NFA, set: Vec<usize>) -> Vec<usize> {
    let mut has = vec![false; nfa.ncount];
    let mut out = Vec::new();
    let mut stack = Vec::new();
    for s in set {
        if !has[s] {
            has[s] = true;
            out.push(s);
            stack.push(s);
        }
    }
    while let Some(s) = stack.pop() {
        for &t in &nfa.eps[s] {
            if !has[t] {
                has[t] = true;
                out.push(t);
                stack.push(t);
            }
        }
    }
    out
}

fn nfa_accepts(nfa: &NFA, w: &[u8]) -> bool {
    let mut states = closure(nfa, vec![0]);
    for &b in w {
        let mut next = Vec::new();
        for &s in &states {
            let t = nfa.jumps[s][b as usize];
            if t != NULL {
                next.push(t);
            }
        }
        states = closure(nfa, next);
    }
    states.iter().any(|&s| nfa.accepts[s] != 0)
}

fn dfa_label(dfa: &DFA, w: &[u8]) -> usize {
    let mut s = 0;
    for &b in w {
        s = dfa.jumps[s][b as usize];
    }
    dfa.accepts[s]
}

fn words(alphabet: &[u8], max_len: usize) -> Vec<Vec<u8>> {
    let mut all = vec![Vec::new()];
    let mut last = vec![Vec::new()];
    for _ in 0..max_len {
        let mut next = Vec::new();
        for w in &last {
            for &c in alphabet {
                let mut v = w.clone();
                v.push(c);
                next.push(v);
            }
        }
        all.extend(next.iter().cloned());
        last = next;
    }
    all
}

const SPEC: &str = "\"while\" WHILE; \"for\" FOR; \"[a-z]+\" IDENT; \"(0|12)*3?\" MIX; \" \";";

#[test]
fn nfa_labels_and_root() {
    let ms = patterns(SPEC);
    let nfa = NFA::build_from_matches(&ms);
    assert_eq!(nfa.labels, vec!["WHILE", "FOR", "IDENT", "MIX"]);
    assert_eq!(nfa.eps[0].len(), 4);
    assert_eq!(nfa.jumps[0][b' ' as usize], 0);
    assert_eq!(nfa.jumps[0][b'a' as usize], NULL);
    assert!(nfa.accepts.iter().all(|&a| a <= 4));
}

#[test]
fn nfa_and_dfa_agree() {
    let nfa = NFA::build_from_matches(&patterns(SPEC));
    let probe = NFA::build_from_matches(&patterns(SPEC));
    let dfa = DFA::subset_construction(nfa).expect("a dead state");
    for w in words(b"afor0123 ", 5) {
        assert_eq!(dfa_label(&dfa, &w) != 0, nfa_accepts(&probe, &w), "{:?}", w);
    }
    assert!([1, 3].contains(&dfa_label(&dfa, b"while")));
    assert!([2, 3].contains(&dfa_label(&dfa, b"for")));
    assert_eq!(dfa_label(&dfa, b"whilex"), 3);
    assert_eq!(dfa_label(&dfa, b"fo"), 3);
    assert_eq!(dfa_label(&dfa, b""), 4);
    assert_eq!(dfa_label(&dfa, b"012"), 4);
    assert_eq!(dfa_label(&dfa, b"01203"), 4);
    assert_eq!(dfa_label(&dfa, b"1"), 0);
    assert_eq!(dfa_label(&dfa, b"a1"), 0);
    assert_eq!(dfa_label(&dfa, b" "), 4);
}

#[test]
fn no_dead_state_without_an_empty_set() {
    let mut root = Node::Char(0 as char);
    for c in 1u8..=255 {
        root = Node::BinaryExpr(BinaryExprNode { left: Box::new(root), right: Box::new(Node::Char(c as char)), op: Op::BAR });
    }
    let ms = vec![Match { root, name: String::new() }];
    assert!(ms[0].root.is_whitespace_pattern());
    let nfa = NFA::build_from_matches(&ms);
    assert!((0..256).all(|b| nfa.jumps[0][b] == 0));
    assert!(DFA::subset_construction(nfa).is_none());
}

#[test]
fn dead_state_absorbs() {
    let nfa = NFA::build_from_matches(&patterns(SPEC));
    let raw = DFA::subset_construction(nfa).unwrap();
    for dfa in [DFA::compress(DFA::subset_construction(NFA::build_from_matches(&patterns(SPEC))).unwrap()), raw] {
        assert!(dfa.dead < dfa.ncount);
        assert_eq!(dfa.accepts[dfa.dead], 0);
        assert!(dfa.jumps[dfa.dead].iter().all(|&t| t == dfa.dead));
    }
}

#[test]
fn minimization_preserves_labels() {
    let raw = DFA::subset_construction(NFA::build_from_matches(&patterns(SPEC))).unwrap();
    let again = DFA::subset_construction(NFA::build_from_matches(&patterns(SPEC))).unwrap();
    let min = DFA::compress(again);
    assert!(min.ncount <= raw.ncount);
    assert!(min.ncount < raw.ncount);
    for w in words(b"afor0123 ", 5) {
        assert_eq!(dfa_label(&min, &w), dfa_label(&raw, &w), "{:?}", w);
    }
    assert_eq!(min.labels, raw.labels);
}

#[test]
fn minimization_merges_equivalent_states() {
    // a|b and then c: the states after a and after b are equivalent.
    let raw = DFA::subset_construction(NFA::build_from_matches(&patterns("\"(a|b)c\" X;"))).unwrap();
    let min = DFA::compress(DFA::subset_construction(NFA::build_from_matches(&patterns("\"(a|b)c\" X;"))).unwrap());
    assert_eq!(raw.ncount, 5);
    assert_eq!(min.ncount, 4);
    assert_eq!(dfa_label(&min, b"ac"), 1);
    assert_eq!(dfa_label(&min, b"bc"), 1);
    assert_eq!(dfa_label(&min, b"c"), 0);
}

#[test]
fn minimization_is_idempotent() {
    let once = DFA::compress(DFA::subset_construction(NFA::build_from_matches(&patterns(SPEC))).unwrap());
    let twice = DFA::compress(DFA::compress(DFA::subset_construction(NFA::build_from_matches(&patterns(SPEC))).unwrap()));
    assert_eq!(twice.ncount, once.ncount);
    assert_eq!(twice.jumps, once.jumps);
    assert_eq!(twice.accepts, once.accepts);
    assert_eq!(twice.dead, once.dead);
}

#[test]
fn empty_automata() {
    let n = NFA::new();
    assert_eq!(n.ncount, 0);
    let d = DFA::new();
    assert_eq!(d.ncount, 0);
    assert!(d.jumps.is_empty());
}

#[test]
fn nfa_of_a_single_byte() {
    let ms = vec![Match { root: Node::Char('a'), name: "A".to_string() }];
    let nfa = NFA::build_from_matches(&ms);
    assert_eq!(nfa.ncount, 3);
    assert_eq!(nfa.labels, vec!["A"]);
    assert_eq!(nfa.eps, vec![vec![1], vec![], vec![]]);
    assert_eq!(nfa.accepts, vec![0, 0, 1]);
    for s in 0..3 {
        for b in 0..256 {
            let expected = if s == 1 && b == b'a' as usize { 2 } else { NULL };
            assert_eq!(nfa.jumps[s][b], expected);
        }
    }
}

#[test]
fn each_label_marks_one_state() {
    let nfa = NFA::build_from_matches(&patterns(SPEC));
    for k in 1..=nfa.labels.len() {
        assert_eq!(nfa.accepts.iter().filter(|&&a| a == k).count(), 1);
    }
    for (k, &start) in nfa.eps[0].iter().enumerate() {
        assert!(start > 0, "root edge {k}");
    }
}

#[test]
fn concatenation_reads_the_product() {
    let nfa = NFA::build_from_matches(&patterns("\"ab*c\" X;"));
    assert!(nfa_accepts(&nfa, b"ac"));
    assert!(nfa_accepts(&nfa, b"abbbc"));
    assert!(!nfa_accepts(&nfa, b"abb"));
    assert!(!nfa_accepts(&nfa, b"bc"));
}
