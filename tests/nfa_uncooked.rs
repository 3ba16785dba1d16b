use rcclex::charset::Charset;
use rcclex::config::{Config, Error};
use rcclex::lexer::Lexer;
use rcclex::nfa_uncooked::{nfa_uncooked, NFAUncooked};
use std::collections::{HashMap, HashSet};

fn build(s: &[u8]) -> NFAUncooked {
    nfa_uncooked(Lexer::new(s, Config::default())).unwrap()
}

fn nfa_err(s: &[u8]) -> Error {
    nfa_uncooked(Lexer::new(s, Config::default())).unwrap_err()
}

#[test]
fn basic() {
    let nfa = build(b"(a)\\Z|b\\Z");
    assert_eq!(nfa.nodes, 10);
    assert_eq!(nfa.begin, 8);
    assert_eq!(nfa.groups, 2);
    assert_eq!(nfa.head, HashMap::from([(2, 0), (6, 1)]));
    assert_eq!(nfa.tail, HashMap::from([(3, 0), (7, 1)]));
    assert_eq!(
        nfa.edges,
        vec![(0, 1, Charset::char(b'a')), (4, 5, Charset::char(b'b'))]
    );
    assert_eq!(
        HashSet::<(usize, usize)>::from_iter(nfa.eps_edges),
        HashSet::from([
            (2, 0),
            (1, 3),
            (6, 4),
            (5, 7),
            (8, 2),
            (8, 6),
            (3, 9),
            (7, 9)
        ])
    );

    let nfa = build(b"((a|b)c((d)))");
    assert_eq!(nfa.nodes, 10);
    assert_eq!(nfa.begin, 4);
    assert_eq!(nfa.head, HashMap::new());
    assert_eq!(nfa.tail, HashMap::new());
    assert_eq!(
        nfa.edges,
        vec![
            (0, 1, Charset::char(b'a')),
            (2, 3, Charset::char(b'b')),
            (6, 7, Charset::char(b'c')),
            (8, 9, Charset::char(b'd'))
        ]
    );
    assert_eq!(
        HashSet::<(usize, usize)>::from_iter(nfa.eps_edges),
        HashSet::from([(4, 0), (4, 2), (1, 5), (3, 5), (5, 6), (7, 8),])
    );
}

#[test]
fn repeats() {
    let nfa = build(b"a{3}");
    assert_eq!(nfa.nodes, 6);
    assert_eq!(nfa.begin, 0);
    assert_eq!(
        HashSet::<(usize, usize)>::from_iter(nfa.eps_edges),
        HashSet::from([(1, 2), (3, 4)])
    );
    assert_eq!(
        nfa.edges,
        vec![
            (0, 1, Charset::char(b'a')),
            (2, 3, Charset::char(b'a')),
            (4, 5, Charset::char(b'a'))
        ]
    );

    let nfa = build(b"a{1,2}b{,1}");
    assert_eq!(nfa.nodes, 6);
    assert_eq!(nfa.begin, 0);
    assert_eq!(
        HashSet::<(usize, usize)>::from_iter(nfa.eps_edges),
        HashSet::from([(1, 2), (2, 3), (3, 4), (4, 5)])
    );
    assert_eq!(
        nfa.edges,
        vec![
            (0, 1, Charset::char(b'a')),
            (2, 3, Charset::char(b'a')),
            (4, 5, Charset::char(b'b'))
        ]
    );

    let nfa = build(b"a{,1}b{,}c{1,}d{2,}");
    assert_eq!(nfa.nodes, 20);
    assert_eq!(nfa.begin, 0);
    assert_eq!(
        HashSet::<(usize, usize)>::from_iter(nfa.eps_edges.clone()),
        HashSet::from([
            (0, 1),
            (1, 4),
            (4, 2),
            (2, 3),
            (3, 5),
            (5, 6),
            (7, 10),
            (10, 8),
            (8, 9),
            (9, 11),
            (11, 12),
            (13, 14),
            (15, 18),
            (18, 16),
            (16, 17),
            (17, 19),
            (5, 4),
            (11, 10),
            (19, 18)
        ])
    );
    assert_eq!(
        nfa.edges,
        vec![
            (0, 1, Charset::char(b'a')),
            (2, 3, Charset::char(b'b')),
            (6, 7, Charset::char(b'c')),
            (8, 9, Charset::char(b'c')),
            (12, 13, Charset::char(b'd')),
            (14, 15, Charset::char(b'd')),
            (16, 17, Charset::char(b'd')),
        ]
    );

    let nfa2 = build(b"a?b*c+d{2,}");
    assert_eq!(nfa, nfa2);
}

#[test]
fn build_nfa_uncooked_errors() {
    assert_eq!(nfa_err(b"("), Error::Balance);
    assert_eq!(nfa_err(b"((())))"), Error::Union);
    assert_eq!(nfa_err(b"a|"), Error::Union);
    assert_eq!(nfa_err(b"|ada"), Error::Union);
    assert_eq!(nfa_err(b"\\Z"), Error::Postfix);
    assert_eq!(nfa_err(b"a|*"), Error::Postfix);
    assert_eq!(nfa_err(b"a|\\Z"), Error::Postfix);
}

#[test]
fn quantifier_spellings_build_the_same_nfa() {
    assert_eq!(build(b"a?"), build(b"a{,1}"));
    assert_eq!(build(b"a?"), build(b"a{0,1}"));
    assert_eq!(build(b"a*"), build(b"a{,}"));
    assert_eq!(build(b"a*"), build(b"a{0,}"));
    assert_eq!(build(b"a+"), build(b"a{1,}"));
    assert_eq!(build(b"(ab|c)?"), build(b"(ab|c){0,1}"));
}

#[test]
fn more_errors() {
    assert_eq!(nfa_err(b")"), Error::Balance);
    assert_eq!(nfa_err(b"a**"), Error::Postfix);
    assert_eq!(nfa_err(b"a+?"), Error::Postfix);
    assert_eq!(nfa_err(b"*"), Error::Postfix);
    assert_eq!(nfa_err(b""), Error::Union);
    assert_eq!(nfa_err(b"[x"), Error::Charset);
    assert_eq!(nfa_err(b"a{256}"), Error::Overflow);
    assert_eq!(nfa_err(b"{"), Error::Repeat);
}

#[test]
fn groups_are_numbered_by_opening() {
    let mut config = Config::default();
    config.auto_groups = true;
    let nfa = nfa_uncooked(Lexer::new(b"((a)(b))", config)).unwrap();
    assert_eq!(nfa.groups, 3);
    // a: 0,1  group 1: 2,3  b: 4,5  group 2: 6,7  outer group 0: 8,9
    assert_eq!(nfa.head, HashMap::from([(2, 1), (6, 2), (8, 0)]));
    assert_eq!(nfa.tail, HashMap::from([(3, 1), (7, 2), (9, 0)]));
    assert_eq!(nfa.begin, 8);
}

#[test]
fn exact_quantifier_nfas() {
    for p in [&b"a?"[..], b"a{,1}", b"a{0,1}"] {
        let n = build(p);
        assert_eq!(n.nodes, 2);
        assert_eq!(n.groups, 0);
        assert_eq!(n.begin, 0);
        assert_eq!(n.edges, vec![(0, 1, Charset::char(b'a'))]);
        assert_eq!(n.eps_edges, vec![(0, 1)]);
        assert!(n.head.is_empty() && n.tail.is_empty());
    }
    for p in [&b"a*"[..], b"a{,}", b"a{0,}"] {
        let n = build(p);
        assert_eq!(n.nodes, 4);
        assert_eq!(n.begin, 2);
        assert_eq!(n.edges, vec![(0, 1, Charset::char(b'a'))]);
        assert_eq!(
            HashSet::<(usize, usize)>::from_iter(n.eps_edges),
            HashSet::from([(0, 1), (2, 0), (1, 3), (3, 2)])
        );
    }
    for p in [&b"a+"[..], b"a{1,}"] {
        let n = build(p);
        assert_eq!(n.nodes, 6);
        assert_eq!(n.begin, 0);
        assert_eq!(
            n.edges,
            vec![(0, 1, Charset::char(b'a')), (2, 3, Charset::char(b'a'))]
        );
        assert_eq!(
            HashSet::<(usize, usize)>::from_iter(n.eps_edges),
            HashSet::from([(2, 3), (4, 2), (3, 5), (5, 4), (1, 4)])
        );
    }
}

#[test]
fn unclosed_group_marker_is_rejected() {
    assert_eq!(nfa_err(b"\\Aa"), Error::Group);
    assert_eq!(nfa_err(b"(\\Aa)\\Z"), Error::Group);
    assert_eq!(nfa_err(b"a|\\A"), Error::Group);
    let n = build(b"\\Aa\\Z");
    assert_eq!(n.groups, 1);
    assert_eq!(n.head.len(), 1);
    assert_eq!(n.tail.len(), 1);
}
