use earley::errors::{ParseError, ParseRulesError};
use earley::grammar::Parser;
use earley::sppf::{SPPF, SPPFNode};
use earley::enumerate::Yielded;
use earley::svec::{sv_get, sv_len, SymVec};

const FUEL: usize = 1_000_000;

fn rules_err(text: &str) -> ParseRulesError {
    match Parser::from_rules(text) {
        Err(e) => e,
        Ok(_) => panic!("malformed rule text was accepted"),
    }
}

fn alt_to_vec(a: &SymVec) -> Vec<usize> {
    let mut out = Vec::new();
    for c in 0..sv_len(a) {
        out.push(sv_get(a, c));
    }
    out
}

fn prod_to_vec(p: &Parser, idx: usize) -> Vec<usize> {
    alt_to_vec(&p.prods()[idx])
}

/// The tree as plain data, for comparing trees across enumerators.
fn tree_sig(t: &SPPF) -> Vec<(Option<usize>, usize, usize, Vec<Vec<usize>>)> {
    let mut out = Vec::new();
    for nd in t.nodes() {
        let mut alts = Vec::new();
        for a in &nd.children {
            alts.push(alt_to_vec(a));
        }
        out.push((nd.prod, nd.start, nd.end, alts));
    }
    out
}

/// The token identifiers at the tree's leaves, left to right.
fn leaves(nodes: &Vec<SPPFNode>, tokens: &Vec<usize>, idx: usize, out: &mut Vec<usize>) {
    let nd = &nodes[idx];
    if nd.children.is_empty() {
        if nd.prod.is_none() {
            out.push(tokens[nd.start]);
        }
    } else {
        let alt = &nd.children[0];
        for c in 0..sv_len(alt) {
            leaves(nodes, tokens, sv_get(alt, c), out);
        }
    }
}

fn first_tree_leaves(sppf: &SPPF) -> Option<Vec<usize>> {
    let mut it = sppf.iter();
    match it.next(FUEL) {
        Yielded::Tree => {
            let t = it.tree();
            let mut out = Vec::new();
            leaves(t.nodes(), t.tokens(), 0, &mut out);
            Some(out)
        }
        _ => None,
    }
}

#[test]
fn nullable_direct_indirect_mutual() {
    // direct: A -> (empty); indirect: B -> A; C only derives a terminal
    let p = Parser::from_rules("A ->\nB -> A\nC -> c").unwrap();
    let a = p.token_id("A").unwrap();
    let b = p.token_id("B").unwrap();
    let c = p.token_id("C").unwrap();
    assert!(p.nullable()[a]);
    assert!(p.nullable()[b]);
    assert!(!p.nullable()[c]);
}

#[test]
fn nullable_mutual_recursion() {
    let p = Parser::from_rules("A -> B\nB -> A\nA ->").unwrap();
    assert!(p.nullable()[p.token_id("A").unwrap()]);
    assert!(p.nullable()[p.token_id("B").unwrap()]);
}

#[test]
fn nullable_chain_over_two_symbols() {
    let p = Parser::from_rules("S -> A B\nA ->\nB -> A A").unwrap();
    assert!(p.nullable()[p.token_id("S").unwrap()]);
    assert!(p.nullable()[p.token_id("A").unwrap()]);
    assert!(p.nullable()[p.token_id("B").unwrap()]);
    // a non-terminal with a terminal on every right-hand side is not nullable
    let q = Parser::from_rules("S -> a\nS -> S S").unwrap();
    assert!(!q.nullable()[q.token_id("S").unwrap()]);
}

#[test]
fn from_rules_empty_is_error_zero() {
    assert_eq!(rules_err(""), ParseRulesError(0));
    assert_eq!(rules_err("\n\n"), ParseRulesError(0));
    assert_eq!(rules_err("# only a comment\n  # another\n"), ParseRulesError(0));
}

#[test]
fn from_rules_malformed_line_number() {
    // line 4 is the first qualifying line without the arrow second
    assert_eq!(rules_err("\n# comment\nS -> a\nT x y\n"), ParseRulesError(4));
    // a lone left-hand side has no arrow either
    assert_eq!(rules_err("S"), ParseRulesError(1));
    // the arrow must be the second token exactly
    assert_eq!(rules_err("S a -> b"), ParseRulesError(1));
}

#[test]
fn interning_left_hand_sides_first() {
    // pass 1 interns S then T; pass 2 interns a then b; so non-terminals get
    // the low identifiers
    let p = Parser::from_rules("S -> a S\nT -> b").unwrap();
    assert_eq!(p.token_id("S"), Some(0));
    assert_eq!(p.token_id("T"), Some(1));
    assert_eq!(p.token_id("a"), Some(2));
    assert_eq!(p.token_id("b"), Some(3));
    assert_eq!(p.token_id("zzz"), None);
    assert_eq!(p.nullable().len(), 2);
    assert_eq!(p.tokens().len(), 4);
    assert_eq!(p.non_terminal_id("S"), Some(0));
    assert_eq!(p.non_terminal_id("a"), None);
    assert_eq!(p.terminal_id("a"), Some(2));
    assert_eq!(p.terminal_id("S"), None);
    // productions keep the rule order and spell the rules
    assert_eq!(p.prods().len(), 2);
    assert_eq!(prod_to_vec(&p, 0), vec![0, 2, 0]);
    assert_eq!(prod_to_vec(&p, 1), vec![1, 3]);
    let names = p.id2token();
    assert_eq!(names[0], b"S".to_vec());
    assert_eq!(names[3], b"b".to_vec());
}

#[test]
fn duplicate_rules_stay_distinct() {
    // two textually identical rules are two distinct productions
    let p = Parser::from_rules("S -> a\nS -> a").unwrap();
    assert_eq!(p.prods().len(), 2);
    assert_eq!(prod_to_vec(&p, 0), prod_to_vec(&p, 1));
}

#[test]
fn unknown_terminal_is_symbol_error() {
    let p = Parser::from_rules("S -> a").unwrap();
    let input = vec!["foo"];
    match p.parse(&input, "S") {
        Err(e) => assert_eq!(e, ParseError("foo".to_string())),
        Ok(_) => panic!("parse accepted an unknown terminal"),
    }
    // a non-terminal used as an input token is just as unresolved
    let input2 = vec!["S"];
    match p.parse(&input2, "S") {
        Err(e) => assert_eq!(e, ParseError("S".to_string())),
        Ok(_) => panic!("parse accepted a non-terminal input token"),
    }
}

#[test]
fn unknown_start_is_symbol_error() {
    let p = Parser::from_rules("S -> a").unwrap();
    let input = vec!["a"];
    match p.parse(&input, "T") {
        Err(e) => assert_eq!(e, ParseError("T".to_string())),
        Ok(_) => panic!("parse accepted an unknown start symbol"),
    }
    // the first unresolved string wins: the bad input token is seen before
    // the bad start symbol
    let input2 = vec!["a", "bad"];
    match p.parse(&input2, "T") {
        Err(e) => assert_eq!(e, ParseError("bad".to_string())),
        Ok(_) => panic!("parse accepted an unknown input token"),
    }
}

#[test]
fn unparsable_input_gives_empty_forest() {
    let p = Parser::from_rules("S -> a").unwrap();
    let input = vec!["a", "a"];
    let (_, sppf) = p.parse(&input, "S").unwrap();
    let mut it = sppf.iter();
    assert_eq!(it.next(FUEL), Yielded::Done);
}

#[test]
fn single_token_roundtrip() {
    let p = Parser::from_rules("S -> a").unwrap();
    let input = vec!["a"];
    let (chart, sppf) = p.parse(&input, "S").unwrap();
    assert_eq!(chart.len(), 2);
    assert_eq!(sppf.tokens(), &vec![p.token_id("a").unwrap()]);
    assert_eq!(sppf.start(), 0);
    assert_eq!(first_tree_leaves(&sppf).unwrap(), vec![p.token_id("a").unwrap()]);
}

#[test]
fn end_to_end_arithmetic_single_tree() {
    // the expression grammar is unambiguous thanks to its left-recursive
    // shape: exactly one tree, whose leaves read back the input
    let p = Parser::from_rules(
        "Sum -> Sum + Product\nSum -> Product\nProduct -> Product * Factor\nProduct -> Factor\nFactor -> ( Sum )\nFactor -> Number",
    )
    .unwrap();
    let input = vec!["Number", "+", "(", "Number", "*", "Number", ")"];
    let (_, sppf) = p.parse(&input, "Sum").unwrap();
    let mut it = sppf.iter();
    assert_eq!(it.next(FUEL), Yielded::Tree);
    let t = it.tree();
    // the root derives a Sum production over the whole input
    let root = &t.nodes()[0];
    let rp = root.prod.unwrap();
    assert_eq!(prod_to_vec(&p, rp)[0], p.token_id("Sum").unwrap());
    assert_eq!((root.start, root.end), (0, input.len()));
    let mut out = Vec::new();
    leaves(t.nodes(), t.tokens(), 0, &mut out);
    let expect: Vec<usize> = input.iter().map(|s| p.token_id(s).unwrap()).collect();
    assert_eq!(out, expect);
    assert_eq!(it.next(FUEL), Yielded::Done);
}

#[test]
fn ambiguous_grammar_two_alternatives_two_trees() {
    let p = Parser::from_rules("E -> E + E\nE -> num").unwrap();
    let input = vec!["num", "+", "num", "+", "num"];
    let (_, sppf) = p.parse(&input, "E").unwrap();
    // the top node, deriving E -> E + E over the whole input, has exactly
    // two alternatives: left and right association
    let e_plus = 0usize;
    let mut top_alts = None;
    for nd in sppf.nodes() {
        if nd.prod == Some(e_plus) && nd.start == 0 && nd.end == input.len() {
            top_alts = Some(nd.children.len());
            // the two alternatives are distinct child sequences
            assert_ne!(alt_to_vec(&nd.children[0]), alt_to_vec(&nd.children[1]));
        }
    }
    assert_eq!(top_alts, Some(2));
    // and the enumerator yields exactly two distinct trees
    let mut it = sppf.iter();
    assert_eq!(it.next(FUEL), Yielded::Tree);
    let t1 = tree_sig(it.tree());
    assert_eq!(it.next(FUEL), Yielded::Tree);
    let t2 = tree_sig(it.tree());
    assert_ne!(t1, t2);
    assert_eq!(it.next(FUEL), Yielded::Done);
}

#[test]
fn trees_are_fully_disambiguated() {
    let p = Parser::from_rules("E -> E + E\nE -> num").unwrap();
    let input = vec!["num", "+", "num", "+", "num"];
    let (_, sppf) = p.parse(&input, "E").unwrap();
    let mut it = sppf.iter();
    while it.next(FUEL) == Yielded::Tree {
        for nd in it.tree().nodes() {
            assert!(nd.children.len() <= 1);
        }
    }
}

#[test]
fn two_enumerators_yield_the_same_sequence() {
    let p = Parser::from_rules("E -> E + E\nE -> num").unwrap();
    let input = vec!["num", "+", "num", "+", "num"];
    let (_, sppf) = p.parse(&input, "E").unwrap();
    let mut it1 = sppf.iter();
    let mut it2 = sppf.iter();
    loop {
        let r1 = it1.next(FUEL);
        let r2 = it2.next(FUEL);
        assert_eq!(r1, r2);
        if r1 != Yielded::Tree {
            break;
        }
        assert_eq!(tree_sig(it1.tree()), tree_sig(it2.tree()));
    }
}

#[test]
fn nullable_unit_cycle_still_yields_a_tree() {
    // A -> B, B -> A, A -> (empty): the forest has cycles, the builder still
    // returns, and the enumerator produces a finite first tree
    let p = Parser::from_rules("A -> B\nB -> A\nA ->").unwrap();
    let input: Vec<&str> = Vec::new();
    let (_, sppf) = p.parse(&input, "A").unwrap();
    let mut it = sppf.iter();
    assert_eq!(it.next(FUEL), Yielded::Tree);
    let t = it.tree();
    assert!(t.nodes().len() >= 1);
    for nd in t.nodes() {
        assert!(nd.children.len() <= 1);
    }
}

#[test]
fn zero_fuel_runs_out() {
    let p = Parser::from_rules("S -> a").unwrap();
    let input = vec!["a"];
    let (_, sppf) = p.parse(&input, "S").unwrap();
    let mut it = sppf.iter();
    assert_eq!(it.next(0), Yielded::OutOfFuel);
    // the suspended state resumes where it left off
    assert_eq!(it.next(FUEL), Yielded::Tree);
}

#[test]
fn nullable_skip_parses_optional_prefix() {
    // Opt is nullable, so the same grammar accepts both with and without it
    let p = Parser::from_rules("S -> Opt a\nOpt -> b\nOpt ->").unwrap();
    let with = vec!["b", "a"];
    let (_, f1) = p.parse(&with, "S").unwrap();
    assert!(first_tree_leaves(&f1).is_some());
    let without = vec!["a"];
    let (_, f2) = p.parse(&without, "S").unwrap();
    let lv = first_tree_leaves(&f2).unwrap();
    assert_eq!(lv, vec![p.token_id("a").unwrap()]);
}

#[test]
fn chart_columns_hold_items() {
    let p = Parser::from_rules("S -> a b").unwrap();
    let input = vec!["a", "b"];
    let (chart, _) = p.parse(&input, "S").unwrap();
    assert_eq!(chart.len(), 3);
    // column 0 holds the seeded start item, and begins with it
    assert!(chart[0].iter().any(|it| it.prod == 0 && it.dot == 1 && it.orig == 0));
    assert_eq!(
        (chart[0][0].prod, chart[0][0].dot, chart[0][0].orig),
        (0, 1, 0)
    );
    // the final column holds the completed start item
    assert!(chart[2].iter().any(|it| it.prod == 0 && it.dot == 3 && it.orig == 0));
}

#[test]
fn forest_getters_expose_the_parse() {
    let p = Parser::from_rules("S -> a").unwrap();
    let input = vec!["a"];
    let (_, sppf) = p.parse(&input, "S").unwrap();
    assert_eq!(sppf.parser().tokens().len(), p.tokens().len());
    assert_eq!(sppf.start(), 0);
    assert_eq!(sppf.tokens().len(), 1);
    assert!(sppf.nodes().len() >= 1);
}
