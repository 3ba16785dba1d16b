use rcclex::config::Config;
use rcclex::lexer::Lexer;
use rcclex::nfa::{build_nfa, NFANode, NFA};
use std::collections::{HashMap, HashSet};

fn nfa_of(s: &[u8]) -> NFA {
    build_nfa(Lexer::new(s, Config::default())).unwrap()
}

fn targets(n: &NFANode) -> HashMap<u8, HashSet<usize>> {
    let mut r: HashMap<u8, HashSet<usize>> = HashMap::new();
    for (q, cs) in n.edges.iter().enumerate() {
        for c in cs.members() {
            r.entry(c).or_insert(HashSet::new()).insert(q);
        }
    }
    r
}

fn groups(flags: &Vec<bool>) -> HashSet<usize> {
    flags
        .iter()
        .enumerate()
        .filter(|(_, f)| **f)
        .map(|(g, _)| g)
        .collect()
}

fn merge<T: Iterator<Item = HashSet<usize>>>(it: T) -> HashMap<usize, HashSet<usize>> {
    let mut r: HashMap<usize, HashSet<usize>> = HashMap::new();
    for (i, e) in it.enumerate() {
        if !e.is_empty() {
            r.entry(i).or_insert(HashSet::new()).extend(e);
        }
    }
    r
}

#[test]
fn build_nfa_just_works() {
    let nfa = nfa_of(b"a");
    assert_eq!(nfa.nodes.len(), 2);
    assert_eq!(nfa.begin, 0);
    assert_eq!(
        targets(&nfa.nodes[0]),
        HashMap::from([(b'a', HashSet::from([1]))])
    );
    assert_eq!(targets(&nfa.nodes[1]), HashMap::new());
    assert_eq!(groups(&nfa.nodes[0].head), HashSet::new());
    assert_eq!(groups(&nfa.nodes[1].head), HashSet::new());
    assert_eq!(groups(&nfa.nodes[0].tail), HashSet::new());
    assert_eq!(groups(&nfa.nodes[1].tail), HashSet::new());
}

#[test]
fn from_uncooked() {
    let nfa = nfa_of(b"\\A(a)\\Z|\\Ab\\Z");
    assert_eq!(nfa.nodes.len(), 10);
    assert_eq!(nfa.begin, 8);
    assert_eq!(
        merge(nfa.nodes.iter().map(|x| groups(&x.head))),
        HashMap::from([
            (8, HashSet::from([0, 1])),
            (2, HashSet::from([0])),
            (6, HashSet::from([1]))
        ]),
    );
    assert_eq!(
        merge(nfa.nodes.iter().map(|x| groups(&x.tail))),
        HashMap::from([
            (1, HashSet::from([0])),
            (5, HashSet::from([1])),
            (3, HashSet::from([0])),
            (7, HashSet::from([1])),
        ]),
    );
    assert_eq!(
        targets(&nfa.nodes[8]),
        HashMap::from([(b'a', HashSet::from([1])), (b'b', HashSet::from([5]))])
    );
    assert_eq!(targets(&nfa.nodes[1]), HashMap::from([]));
    assert_eq!(targets(&nfa.nodes[5]), HashMap::from([]));

    let nfa = nfa_of(b"((a|b)c((d)))");
    assert_eq!(nfa.nodes.len(), 10);
    assert_eq!(nfa.begin, 4);
    assert_eq!(merge(nfa.nodes.iter().map(|x| groups(&x.tail))), HashMap::new());
    assert_eq!(merge(nfa.nodes.iter().map(|x| groups(&x.head))), HashMap::new());
    assert_eq!(
        targets(&nfa.nodes[4]),
        HashMap::from([(b'a', HashSet::from([1])), (b'b', HashSet::from([3]))])
    );
    assert_eq!(
        targets(&nfa.nodes[1]),
        HashMap::from([(b'c', HashSet::from([7]))])
    );
    assert_eq!(
        targets(&nfa.nodes[3]),
        HashMap::from([(b'c', HashSet::from([7]))])
    );
    assert_eq!(
        targets(&nfa.nodes[7]),
        HashMap::from([(b'd', HashSet::from([9]))])
    );
}

#[test]
fn star_loops_back_through_closure() {
    // a: 0 -a-> 1, optional 0 -> 1, loop: 2 -> 0, 1 -> 3, 3 -> 2
    let nfa = nfa_of(b"a*");
    assert_eq!(nfa.begin, 2);
    assert_eq!(
        targets(&nfa.nodes[2]),
        HashMap::from([(b'a', HashSet::from([1]))])
    );
    assert_eq!(
        targets(&nfa.nodes[1]),
        HashMap::from([(b'a', HashSet::from([1]))])
    );
}
