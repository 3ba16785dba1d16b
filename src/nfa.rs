use vstd::prelude::*;
use crate::charset::Charset;
use crate::config::Error;
use crate::lexer::Lexer;
use crate::nfa_uncooked::{NFAUncooked, nfa_uncooked, is_build_error, thompson};

verus! {

broadcast use vstd::std_specs::hash::group_hash_axioms;

/// A set of nodes that holds the far end of every epsilon edge whose near
/// end it holds.
pub open spec fn eps_closed(u: NFAUncooked, s: Set<usize>) -> bool {
    forall|i: int|
        0 <= i < u.eps_edges.len() && s.contains(#[trigger] u.eps_edges[i].0) ==> s.contains(
            u.eps_edges[i].1,
        )
}

/// The epsilon closure of `p`: the nodes that lie in every epsilon-closed set
/// that holds `p`.
pub open spec fn closure(u: NFAUncooked, p: usize) -> Set<usize> {
    Set::new(|n: usize| forall|s: Set<usize>| #[trigger] eps_closed(u, s) && s.contains(p) ==> s.contains(n))
}

/// The bytes on which `p` moves to `q`: those of every consuming edge into `q`
/// out of a node of the closure of `p`.
pub open spec fn moves(u: NFAUncooked, p: usize, q: usize) -> Set<u8> {
    Set::new(
        |c: u8|
            exists|i: int|
                0 <= i < u.edges.len() && closure(u, p).contains(#[trigger] u.edges[i].0)
                    && u.edges[i].1 == q && u.edges[i].2@.contains(c),
    )
}

/// Whether a node of the closure of `p` opens group `g`.
pub open spec fn opens(u: NFAUncooked, p: usize, g: usize) -> bool {
    exists|n: usize| closure(u, p).contains(n) && #[trigger] u.head@.contains_key(n) && u.head@[n] == g
}

/// Whether a node of the closure of `p` closes group `g`.
pub open spec fn closes(u: NFAUncooked, p: usize, g: usize) -> bool {
    exists|n: usize| closure(u, p).contains(n) && #[trigger] u.tail@.contains_key(n) && u.tail@[n] == g
}

/// The number of set flags.
pub open spec fn count_true(s: Seq<bool>) -> nat
    decreases s.len(),
{
    if s.len() == 0 {
        0
    } else {
        count_true(s.drop_last()) + if s.last() {
            1nat
        } else {
            0
        }
    }
}

proof fn lemma_count_le(s: Seq<bool>)
    ensures
        count_true(s) <= s.len(),
    decreases s.len(),
{
    if s.len() > 0 {
        lemma_count_le(s.drop_last());
    }
}

proof fn lemma_count_set(s: Seq<bool>, i: int)
    requires
        0 <= i < s.len(),
        !s[i],
    ensures
        count_true(s.update(i, true)) == count_true(s) + 1,
    decreases s.len(),
{
    let t = s.update(i, true);
    if i == s.len() - 1 {
        assert(t.drop_last() =~= s.drop_last());
    } else {
        assert(t.drop_last() =~= s.drop_last().update(i, true));
        lemma_count_set(s.drop_last(), i);
    }
}

/// The closure, the moves and the group marks read only what the model of an
/// NFA holds: two NFAs with the same model are cooked alike.
proof fn lemma_same_model(u1: NFAUncooked, u2: NFAUncooked)
    requires
        u1.arena() == u2.arena(),
    ensures
        forall|p: usize| closure(u1, p) == closure(u2, p),
        forall|p: usize, q: usize| moves(u1, p, q) == moves(u2, p, q),
        forall|p: usize, g: usize| opens(u1, p, g) == opens(u2, p, g),
        forall|p: usize, g: usize| closes(u1, p, g) == closes(u2, p, g),
{
    assert(u1.eps_edges@ == u2.eps_edges@);
    assert forall|s: Set<usize>| eps_closed(u1, s) == eps_closed(u2, s) by {
        assert forall|i: int| 0 <= i < u1.eps_edges.len() implies u1.eps_edges[i] == u2.eps_edges[i] by {
            assert(u1.eps_edges@[i] == u2.eps_edges@[i]);
        }
    }
    assert forall|p: usize| closure(u1, p) == closure(u2, p) by {
        assert(closure(u1, p) =~= closure(u2, p));
    }
    assert(u1.edges.len() == u1.arena().edges.len());
    assert(u2.edges.len() == u2.arena().edges.len());
    assert forall|i: int| 0 <= i < u1.edges.len() implies u1.edges[i].0 == u2.edges[i].0
        && u1.edges[i].1 == u2.edges[i].1 && u1.edges[i].2@ == u2.edges[i].2@ by {
        assert(u1.arena().edges[i] == (u1.edges[i].0, u1.edges[i].1, u1.edges[i].2@));
        assert(u2.arena().edges[i] == (u2.edges[i].0, u2.edges[i].1, u2.edges[i].2@));
    }
    assert forall|p: usize, q: usize| moves(u1, p, q) == moves(u2, p, q) by {
        assert(moves(u1, p, q) =~= moves(u2, p, q));
    }
    assert(u1.head@ == u2.head@ && u1.tail@ == u2.tail@);
}

/// An NFA cooks every NFA with the model and entry of one it cooks.
pub proof fn lemma_cooks_model(n: NFA, u1: NFAUncooked, u2: NFAUncooked)
    requires
        n.cooks(u1),
        u1.arena() == u2.arena(),
        u1.begin == u2.begin,
    ensures
        n.cooks(u2),
{
    lemma_same_model(u1, u2);
    assert forall|p: int| 0 <= p < u2.nodes implies cooked_node(u2, p as usize, #[trigger] n.nodes[p]) by {
        assert(cooked_node(u1, p as usize, n.nodes[p]));
    }
}

/// A node of the NFA after epsilon edges are folded in.
pub struct NFANode {
    /// `edges[q]`: the bytes on which this node moves to node `q`.
    pub edges: Vec<Charset>,
    /// `head[g]`: whether group `g` opens here.
    pub head: Vec<bool>,
    /// `tail[g]`: whether group `g` closes here.
    pub tail: Vec<bool>,
}

/// An NFA without epsilon edges, whose nodes carry the groups they open and
/// close.
pub struct NFA {
    pub nodes: Vec<NFANode>,
    pub begin: usize,
    pub groups: usize,
}

/// Whether `x` is node `p` of the NFA cooked from `u`.
pub open spec fn cooked_node(u: NFAUncooked, p: usize, x: NFANode) -> bool {
    &&& x.edges.len() == u.nodes
    &&& x.head.len() == u.groups
    &&& x.tail.len() == u.groups
    &&& forall|q: int| 0 <= q < u.nodes ==> (#[trigger] x.edges[q])@ == moves(u, p, q as usize)
    &&& forall|g: int| 0 <= g < u.groups ==> #[trigger] x.head[g] == opens(u, p, g as usize)
    &&& forall|g: int| 0 <= g < u.groups ==> #[trigger] x.tail[g] == closes(u, p, g as usize)
}

impl NFA {
    /// The shape every cooked NFA has.
    pub open spec fn wf(&self) -> bool {
        &&& self.begin < self.nodes.len()
        &&& forall|p: int|
            0 <= p < self.nodes.len() ==> (#[trigger] self.nodes[p]).edges.len() == self.nodes.len()
                && self.nodes[p].head.len() == self.groups && self.nodes[p].tail.len()
                == self.groups
    }

    /// Whether this NFA is `u` with its epsilon edges folded in.
    pub open spec fn cooks(&self, u: NFAUncooked) -> bool {
        &&& self.nodes.len() == u.nodes
        &&& self.begin == u.begin
        &&& self.groups == u.groups
        &&& forall|p: int| 0 <= p < u.nodes ==> cooked_node(u, p as usize, #[trigger] self.nodes[p])
    }

    /// The epsilon closure of `p`, as a flag for each node.
    fn closure_of(u: &NFAUncooked, p: usize) -> (r: Vec<bool>)
        requires
            u.wf(),
            p < u.nodes,
        ensures
            r.len() == u.nodes,
            forall|n: int| 0 <= n < u.nodes ==> #[trigger] r[n] == closure(*u, p).contains(n as usize),
    {
        let ghost cl = closure(*u, p);
        let n = u.nodes;
        let mut used: Vec<bool> = Vec::new();
        while used.len() < n
            invariant
                used.len() <= n,
                forall|i: int| 0 <= i < used.len() ==> !used[i],
            decreases n - used.len(),
        {
            used.push(false);
        }
        proof {
            assert(cl.contains(p));
            lemma_count_set(used@, p as int);
        }
        used.set(p, true);
        let mut stack: Vec<usize> = Vec::new();
        stack.push(p);
        proof {
            lemma_count_le(used@);
            assert(stack@[0] == p);
            assert(stack@.contains(p));
            assert forall|y: int| 0 <= y < n && #[trigger] used[y] implies y == p by {}
        }
        while stack.len() > 0
            invariant
                u.wf(),
                p < n,
                n == u.nodes,
                cl == closure(*u, p),
                used.len() == n,
                used[p as int],
                forall|x: int| 0 <= x < n && #[trigger] used[x] ==> cl.contains(x as usize),
                forall|i: int| 0 <= i < stack.len() ==> #[trigger] stack[i] < n && used[stack[i] as int],
                forall|k: int|
                    0 <= k < u.eps_edges.len() && used[(#[trigger] u.eps_edges[k]).0 as int]
                        && !stack@.contains(u.eps_edges[k].0) ==> used[u.eps_edges[k].1 as int],
                count_true(used@) <= n,
            decreases 2 * (n - count_true(used@)) + stack.len(),
        {
            let ghost measure = 2 * (n - count_true(used@)) + stack.len();
            let ghost stack0 = stack@;
            let x = stack.pop().unwrap();
            proof {
                assert(used[x as int]);
                assert(stack0 =~= stack@.push(x));
                assert forall|y: usize| y != x && stack0.contains(y) implies stack@.contains(y) by {
                    let j = choose|j: int| 0 <= j < stack0.len() && stack0[j] == y;
                    assert(j < stack@.len());
                    assert(stack@[j] == y);
                }
            }
            let m = u.eps_edges.len();
            let mut i: usize = 0;
            while i < m
                invariant
                    u.wf(),
                    p < n,
                    n == u.nodes,
                    m == u.eps_edges.len(),
                    cl == closure(*u, p),
                    x < n,
                    used.len() == n,
                    used[p as int],
                    used[x as int],
                    i <= m,
                    forall|y: int| 0 <= y < n && #[trigger] used[y] ==> cl.contains(y as usize),
                    forall|k: int|
                        0 <= k < stack.len() ==> #[trigger] stack[k] < n && used[stack[k] as int],
                    forall|k: int|
                        0 <= k < u.eps_edges.len() && used[(#[trigger] u.eps_edges[k]).0 as int]
                            && !stack@.contains(u.eps_edges[k].0) && u.eps_edges[k].0 != x
                            ==> used[u.eps_edges[k].1 as int],
                    forall|k: int|
                        0 <= k < i && (#[trigger] u.eps_edges[k]).0 == x ==> used[u.eps_edges[k].1 as int],
                    count_true(used@) <= n,
                    2 * (n - count_true(used@)) + stack.len() < measure,
                decreases m - i,
            {
                let (a, b) = u.eps_edges[i];
                if a == x && !used[b] {
                    proof {
                        assert(u.eps_edges[i as int].1 < n);
                        assert forall|s: Set<usize>| #[trigger]
                            eps_closed(*u, s) && s.contains(p) implies s.contains(b) by {
                            assert(cl.contains(x));
                            assert(s.contains(x));
                            assert(s.contains(u.eps_edges[i as int].1));
                        }
                        lemma_count_set(used@, b as int);
                        lemma_count_le(used@.update(b as int, true));
                    }
                    let ghost used0 = used@;
                    let ghost stack1 = stack@;
                    used.set(b, true);
                    stack.push(b);
                    proof {
                        assert(stack@[stack.len() - 1] == b);
                        assert(stack@.contains(b));
                        assert forall|y: usize| stack1.contains(y) implies stack@.contains(y) by {
                            let j = choose|j: int| 0 <= j < stack1.len() && stack1[j] == y;
                            assert(stack@[j] == y);
                        }
                        assert forall|k: int|
                            0 <= k < u.eps_edges.len() && used[(#[trigger] u.eps_edges[k]).0 as int]
                                && !stack@.contains(u.eps_edges[k].0) && u.eps_edges[k].0 != x
                                implies used[u.eps_edges[k].1 as int] by {
                            let y = u.eps_edges[k].0;
                            assert(y != b);
                            assert(used0[y as int]);
                            assert(!stack1.contains(y));
                        }
                    }
                }
                i = i + 1;
            }
        }
        proof {
            let c = Set::new(|y: usize| y < n && used[y as int]);
            assert(eps_closed(*u, c)) by {
                assert forall|k: int|
                    0 <= k < u.eps_edges.len() && c.contains(#[trigger] u.eps_edges[k].0) implies c.contains(
                    u.eps_edges[k].1,
                ) by {
                    assert(!stack@.contains(u.eps_edges[k].0));
                }
            }
            assert(c.contains(p));
            assert forall|y: int| 0 <= y < n implies #[trigger] used[y] == cl.contains(y as usize) by {
                if cl.contains(y as usize) {
                    assert(c.contains(y as usize));
                }
            }
        }
        used
    }

    /// Node `p` with the epsilon edges out of its closure folded in.
    fn cook_node(u: &NFAUncooked, p: usize) -> (r: NFANode)
        requires
            u.wf(),
            p < u.nodes,
        ensures
            cooked_node(*u, p, r),
    {
        let used = NFA::closure_of(u, p);
        let ghost cl = closure(*u, p);
        let n = u.nodes;
        let mut edges: Vec<Charset> = Vec::new();
        while edges.len() < n
            invariant
                edges.len() <= n,
                forall|q: int| 0 <= q < edges.len() ==> (#[trigger] edges[q])@ == Set::<u8>::empty(),
            decreases n - edges.len(),
        {
            edges.push(Charset::new());
        }
        let m = u.edges.len();
        let mut i: usize = 0;
        while i < m
            invariant
                u.wf(),
                n == u.nodes,
                m == u.edges.len(),
                cl == closure(*u, p),
                used.len() == n,
                forall|x: int| 0 <= x < n ==> #[trigger] used[x] == cl.contains(x as usize),
                edges.len() == n,
                i <= m,
                forall|q: int|
                    0 <= q < n ==> (#[trigger] edges[q])@ == Set::new(
                        |c: u8|
                            exists|k: int|
                                0 <= k < i && cl.contains(#[trigger] u.edges[k].0) && u.edges[k].1
                                    == q && u.edges[k].2@.contains(c),
                    ),
            decreases m - i,
        {
            let (a, b, cs) = u.edges[i];
            let ghost e0 = edges@;
            if used[a] {
                let t = edges[b].union(&cs);
                edges.set(b, t);
            }
            proof {
                assert forall|q: int| 0 <= q < n implies (#[trigger] edges[q])@ == Set::new(
                    |c: u8|
                        exists|k: int|
                            0 <= k < i + 1 && cl.contains(#[trigger] u.edges[k].0) && u.edges[k].1
                                == q && u.edges[k].2@.contains(c),
                ) by {
                    let lhs = edges[q]@;
                    let rhs = Set::new(
                        |c: u8|
                            exists|k: int|
                                0 <= k < i + 1 && cl.contains(#[trigger] u.edges[k].0) && u.edges[k].1
                                    == q && u.edges[k].2@.contains(c),
                    );
                    assert forall|c: u8| lhs.contains(c) == rhs.contains(c) by {
                        if rhs.contains(c) {
                            let k = choose|k: int|
                                0 <= k < i + 1 && cl.contains(#[trigger] u.edges[k].0) && u.edges[k].1
                                    == q && u.edges[k].2@.contains(c);
                            if k < i {
                                assert(e0[q]@.contains(c));
                            }
                        }
                        if lhs.contains(c) && !(used[a as int] && q == b && cs@.contains(c)) {
                            assert(e0[q]@.contains(c));
                        }
                    }
                    assert(lhs =~= rhs);
                }
            }
            i = i + 1;
        }
        proof {
            assert forall|q: int| 0 <= q < n implies (#[trigger] edges[q])@ == moves(*u, p, q as usize) by {
                assert(edges[q]@ =~= moves(*u, p, q as usize));
            }
        }
        let head = NFA::marks(u, &used, p, true);
        let tail = NFA::marks(u, &used, p, false);
        NFANode { edges, head, tail }
    }

    /// For each group, whether a node of the closure opens it (`heads`) or
    /// closes it (else).
    fn marks(u: &NFAUncooked, used: &Vec<bool>, p: usize, heads: bool) -> (r: Vec<bool>)
        requires
            u.wf(),
            p < u.nodes,
            used.len() == u.nodes,
            forall|x: int| 0 <= x < u.nodes ==> #[trigger] used[x] == closure(*u, p).contains(x as usize),
        ensures
            r.len() == u.groups,
            forall|g: int|
                0 <= g < u.groups ==> #[trigger] r[g] == if heads {
                    opens(*u, p, g as usize)
                } else {
                    closes(*u, p, g as usize)
                },
    {
        let ghost cl = closure(*u, p);
        let ghost map = if heads {
            u.head@
        } else {
            u.tail@
        };
        let mut r: Vec<bool> = Vec::new();
        while r.len() < u.groups
            invariant
                r.len() <= u.groups,
                forall|g: int| 0 <= g < r.len() ==> !r[g],
            decreases u.groups - r.len(),
        {
            r.push(false);
        }
        let mut x: usize = 0;
        while x < u.nodes
            invariant
                u.wf(),
                cl == closure(*u, p),
                map == if heads {
                    u.head@
                } else {
                    u.tail@
                },
                used.len() == u.nodes,
                forall|y: int| 0 <= y < u.nodes ==> #[trigger] used[y] == cl.contains(y as usize),
                r.len() == u.groups,
                x <= u.nodes,
                forall|g: int|
                    0 <= g < u.groups ==> #[trigger] r[g] == exists|y: usize|
                        y < x && cl.contains(y) && #[trigger] map.contains_key(y) && map[y] == g,
            decreases u.nodes - x,
        {
            if used[x] {
                let found = if heads {
                    u.head.get(&x)
                } else {
                    u.tail.get(&x)
                };
                if let Some(g) = found {
                    let g = *g;
                    let ghost r0 = r@;
                    r.set(g, true);
                    proof {
                        assert forall|h: int| 0 <= h < u.groups implies #[trigger] r[h] == exists|y: usize|
                            y < x + 1 && cl.contains(y) && #[trigger] map.contains_key(y) && map[y] == h by {
                            if h == g {
                                assert(x < x + 1 && cl.contains(x) && map.contains_key(x) && map[x] == h);
                            } else if r[h] {
                                assert(r0[h]);
                            } else {
                                if exists|y: usize| y < x + 1 && cl.contains(y) && #[trigger] map.contains_key(y) && map[y] == h {
                                    let y = choose|y: usize| y < x + 1 && cl.contains(y) && #[trigger] map.contains_key(y) && map[y] == h;
                                    assert(y != x);
                                    assert(r0[h]);
                                }
                            }
                        }
                    }
                } else {
                    proof {
                        assert forall|h: int| 0 <= h < u.groups implies #[trigger] r[h] == exists|y: usize|
                            y < x + 1 && cl.contains(y) && #[trigger] map.contains_key(y) && map[y] == h by {
                            if exists|y: usize| y < x + 1 && cl.contains(y) && #[trigger] map.contains_key(y) && map[y] == h {
                                let y = choose|y: usize| y < x + 1 && cl.contains(y) && #[trigger] map.contains_key(y) && map[y] == h;
                                assert(y != x);
                            }
                        }
                    }
                }
            } else {
                proof {
                    assert forall|h: int| 0 <= h < u.groups implies #[trigger] r[h] == exists|y: usize|
                        y < x + 1 && cl.contains(y) && #[trigger] map.contains_key(y) && map[y] == h by {
                        if exists|y: usize| y < x + 1 && cl.contains(y) && #[trigger] map.contains_key(y) && map[y] == h {
                            let y = choose|y: usize| y < x + 1 && cl.contains(y) && #[trigger] map.contains_key(y) && map[y] == h;
                            assert(y != x);
                        }
                    }
                }
            }
            x = x + 1;
        }
        proof {
            assert forall|g: int| 0 <= g < u.groups implies #[trigger] r[g] == if heads {
                opens(*u, p, g as usize)
            } else {
                closes(*u, p, g as usize)
            } by {
                if heads {
                    if opens(*u, p, g as usize) {
                        let y = choose|y: usize| cl.contains(y) && #[trigger] u.head@.contains_key(y) && u.head@[y] == g as usize;
                        assert(y < u.nodes);
                    }
                } else {
                    if closes(*u, p, g as usize) {
                        let y = choose|y: usize| cl.contains(y) && #[trigger] u.tail@.contains_key(y) && u.tail@[y] == g as usize;
                        assert(y < u.nodes);
                    }
                }
            }
        }
        r
    }

    /// Folds the epsilon edges of `u` into its consuming edges and its group
    /// marks.
    pub fn from(u: NFAUncooked) -> (r: NFA)
        requires
            u.wf(),
        ensures
            r.wf(),
            r.cooks(u),
    {
        let mut nodes: Vec<NFANode> = Vec::new();
        let mut p: usize = 0;
        while p < u.nodes
            invariant
                u.wf(),
                p <= u.nodes,
                nodes.len() == p,
                forall|q: int| 0 <= q < p ==> cooked_node(u, q as usize, #[trigger] nodes[q]),
            decreases u.nodes - p,
        {
            let x = NFA::cook_node(&u, p);
            nodes.push(x);
            proof {
                assert(nodes[p as int] == x);
            }
            p = p + 1;
        }
        NFA { nodes, begin: u.begin, groups: u.groups }
    }
}

/// Builds the NFA of the pattern that `lex` reads, with its epsilon edges
/// folded in. Succeeds and fails as [`nfa_uncooked`] does.
pub fn build_nfa(lex: Lexer) -> (r: Result<NFA, Error>)
    requires
        lex.wf(),
    ensures
        match r {
            Ok(n) => n.wf() && (thompson(lex.config(), lex.input(), lex.pos(), lex.pending_view()) matches Ok(t)
                && forall|u: NFAUncooked| u.arena() == t.arena && u.begin == t.begin ==> #[trigger] n.cooks(u)),
            Err(e) => is_build_error(e) || e == Error::Overflow,
        },
        match thompson(lex.config(), lex.input(), lex.pos(), lex.pending_view()) {
            Ok(_) => r is Ok,
            Err(e) => r == Err::<NFA, Error>(e),
        },
{
    let ghost l = lex;
    let u = nfa_uncooked(lex)?;
    let ghost g = u;
    let n = NFA::from(u);
    proof {
        assert(n.cooks(g));
        if let Ok(t) = thompson(l.config(), l.input(), l.pos(), l.pending_view()) {
            assert forall|v: NFAUncooked| v.arena() == t.arena && v.begin == t.begin implies #[trigger] n.cooks(v) by {
                lemma_cooks_model(n, g, v);
            }
        }
    }
    Ok(n)
}

} // verus!
