use rcclex::config::Config;
use rcclex::dfa::build_dfa;
use rcclex::lexer::Lexer;
use rcclex::nfa::build_nfa;
use std::collections::HashMap;

fn row(r: &Vec<Option<usize>>) -> HashMap<u8, usize> {
    let mut m = HashMap::new();
    for (c, t) in r.iter().enumerate() {
        if let Some(t) = t {
            m.insert(c as u8, *t);
        }
    }
    m
}

#[test]
fn build_dfa_just_works() {
    let nfa = build_dfa(build_nfa(Lexer::new(b"a", Config::default())).unwrap());
    assert_eq!(nfa.nodes.len(), 2);
    assert_eq!(row(&nfa.nodes[0]), HashMap::from([(b'a', 1)]));
    assert_eq!(row(&nfa.nodes[1]), HashMap::new());
}

#[test]
fn states_are_distinct_and_numbered_breadth_first() {
    let dfa = build_dfa(build_nfa(Lexer::new(b"[ab]c|bd", Config::default())).unwrap());
    // 0 = start; 'a' -> {after [ab]}, 'b' -> {after [ab], after b}
    assert_eq!(row(&dfa.nodes[0]), HashMap::from([(b'a', 1), (b'b', 2)]));
    assert_eq!(row(&dfa.nodes[1]), HashMap::from([(b'c', 3)]));
    assert_eq!(row(&dfa.nodes[2]), HashMap::from([(b'c', 3), (b'd', 4)]));
    assert_eq!(dfa.nodes.len(), 5);
    for i in 0..dfa.states.len() {
        for j in 0..i {
            assert_ne!(dfa.states[i], dfa.states[j]);
        }
        assert_eq!(dfa.nodes[i].len(), 256);
    }
}
