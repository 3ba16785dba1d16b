use vstd::prelude::*;
use std::collections::HashMap;
use crate::charset::Charset;
use crate::config::Error;
use crate::lexer::{Lexeme, Lexer, Token, is_lexer_error, measure, next_fuel, spec_next};

verus! {

broadcast use vstd::std_specs::hash::group_hash_axioms;

/// An NFA as Thompson's construction leaves it: nodes `0..nodes`, edges that
/// consume a byte out of a charset, epsilon edges, and the nodes that open
/// (`head`) and close (`tail`) each capture group.
#[derive(Debug, PartialEq)]
pub struct NFAUncooked {
    pub nodes: usize,
    pub groups: usize,
    pub begin: usize,
    pub edges: Vec<(usize, usize, Charset)>,
    pub eps_edges: Vec<(usize, usize)>,
    pub head: HashMap<usize, usize>,
    pub tail: HashMap<usize, usize>,
}

/// A fragment on the build stack: entry node, exit node, and how many nodes
/// at the top of the arena it occupies.
type Fragment = (usize, usize, usize);

/// The errors that building an NFA can give.
pub open spec fn is_build_error(e: Error) -> bool {
    is_lexer_error(e) || e == Error::Balance || e == Error::Union || e == Error::Empty || e
        == Error::Postfix || e == Error::Group
}

/// The state of a construction in progress, as plain values: node and group
/// counts, consuming edges (with their byte sets), epsilon edges, and the
/// nodes that open and close each group.
pub struct Arena {
    pub nodes: usize,
    pub groups: usize,
    pub edges: Seq<(usize, usize, Set<u8>)>,
    pub eps: Seq<(usize, usize)>,
    pub head: Map<usize, usize>,
    pub tail: Map<usize, usize>,
}

/// A finished construction: the arena and its entry node.
pub struct Thompson {
    pub arena: Arena,
    pub begin: usize,
}

impl Arena {
    pub open spec fn empty() -> Arena {
        Arena {
            nodes: 0,
            groups: 0,
            edges: Seq::empty(),
            eps: Seq::empty(),
            head: Map::empty(),
            tail: Map::empty(),
        }
    }

    pub open spec fn with_counts(self, nodes: usize, groups: usize) -> Arena {
        Arena { nodes, groups, ..self }
    }

    pub open spec fn add_eps(self, a: usize, b: usize) -> Arena {
        Arena { eps: self.eps.push((a, b)), ..self }
    }

    pub open spec fn add_edge(self, a: usize, b: usize, c: Set<u8>) -> Arena {
        Arena { edges: self.edges.push((a, b, c)), ..self }
    }

    /// A new node, numbered `nodes`.
    pub open spec fn node(self) -> Result<(Arena, usize), Error> {
        if self.nodes == usize::MAX {
            Err(Error::Overflow)
        } else {
            Ok((self.with_counts((self.nodes + 1) as usize, self.groups), self.nodes))
        }
    }

    /// A new group, numbered `groups`.
    pub open spec fn group(self) -> Result<(Arena, usize), Error> {
        if self.groups == usize::MAX {
            Err(Error::Overflow)
        } else {
            Ok((self.with_counts(self.nodes, (self.groups + 1) as usize), self.groups))
        }
    }
}

/// Concatenation of the fragments above `last`, pairwise from the top.
pub open spec fn join_rest(a: Arena, q: Seq<(usize, usize, usize)>, last: int) -> (Arena, Seq<
    (usize, usize, usize),
>)
    decreases q.len(),
{
    if 0 <= last < q.len() - 1 {
        let b = q.last();
        let x = q.drop_last().last();
        join_rest(
            a.add_eps(x.1, b.0),
            q.drop_last().drop_last().push((x.0, b.1, (x.2 + b.2) as usize)),
            last,
        )
    } else {
        (a, q)
    }
}

/// [`join_rest`], or `Union` when no fragment stands above `last`.
pub open spec fn spec_join(a: Arena, q: Seq<(usize, usize, usize)>, last: int) -> Result<
    (Arena, Seq<(usize, usize, usize)>),
    Error,
> {
    if last == q.len() {
        Err(Error::Union)
    } else {
        Ok(join_rest(a, q, last))
    }
}

/// Alternation of all fragments, pairwise from the top, each pair under two
/// new nodes.
pub open spec fn spec_union(a: Arena, q: Seq<(usize, usize, usize)>) -> Result<
    (Arena, Seq<(usize, usize, usize)>),
    Error,
>
    decreases q.len(),
{
    if q.len() > 1 {
        let y = q.last();
        let p = q.drop_last().last();
        match a.node() {
            Err(e) => Err(e),
            Ok((a1, m)) => match a1.node() {
                Err(e) => Err(e),
                Ok((a2, n)) => spec_union(
                    a2.add_eps(m, p.0).add_eps(m, y.0).add_eps(p.1, n).add_eps(y.1, n),
                    q.drop_last().drop_last().push((m, n, (p.2 + y.2 + 2) as usize)),
                ),
            },
        }
    } else {
        Ok((a, q))
    }
}

/// The shifted copies of the edges among `e[..i]`, taken from the top down
/// to the first one with both ends below `origin`.
pub open spec fn copied_edges(e: Seq<(usize, usize, Set<u8>)>, i: int, origin: usize, size: usize) -> Seq<
    (usize, usize, Set<u8>),
>
    decreases i,
{
    if i <= 0 || i > e.len() {
        Seq::empty()
    } else {
        let x = e[i - 1];
        if x.0 < origin && x.1 < origin {
            Seq::empty()
        } else {
            seq![((x.0 + size) as usize, (x.1 + size) as usize, x.2)] + copied_edges(
                e,
                i - 1,
                origin,
                size,
            )
        }
    }
}

/// The shifted copies of the epsilon edges among `e[..i]`, taken from the
/// top down to the first one with an end below `origin`.
pub open spec fn copied_eps(e: Seq<(usize, usize)>, i: int, origin: usize, size: usize) -> Seq<
    (usize, usize),
>
    decreases i,
{
    if i <= 0 || i > e.len() {
        Seq::empty()
    } else {
        let x = e[i - 1];
        if x.0 < origin || x.1 < origin {
            Seq::empty()
        } else {
            seq![((x.0 + size) as usize, (x.1 + size) as usize)] + copied_eps(e, i - 1, origin, size)
        }
    }
}

/// A copy of fragment `p`, which occupies the top `p.2` nodes, with the
/// edges among its nodes.
pub open spec fn spec_copy_last(a: Arena, p: (usize, usize, usize)) -> Result<
    (Arena, (usize, usize, usize)),
    Error,
> {
    let size = p.2;
    if a.nodes > usize::MAX - size {
        Err(Error::Overflow)
    } else {
        let origin = (a.nodes - size) as usize;
        Ok(
            (
                Arena {
                    nodes: (a.nodes + size) as usize,
                    edges: a.edges + copied_edges(a.edges, a.edges.len() as int, origin, size),
                    eps: a.eps + copied_eps(a.eps, a.eps.len() as int, origin, size),
                    ..a
                },
                ((p.0 + size) as usize, (p.1 + size) as usize, size),
            ),
        )
    }
}

/// The fragment of one byte out of `c`, pushed.
pub open spec fn spec_char(a: Arena, q: Seq<(usize, usize, usize)>, c: Set<u8>) -> Result<
    (Arena, Seq<(usize, usize, usize)>),
    Error,
> {
    match a.node() {
        Err(e) => Err(e),
        Ok((a1, m)) => match a1.node() {
            Err(e) => Err(e),
            Ok((a2, n)) => Ok((a2.add_edge(m, n, c), q.push((m, n, 2)))),
        },
    }
}

/// The top fragment made a group: the innermost one opened and not closed,
/// or a new one.
pub open spec fn spec_close_group(a: Arena, q: Seq<(usize, usize, usize)>, o: Seq<usize>) -> Result<
    (Arena, Seq<(usize, usize, usize)>, Seq<usize>),
    Error,
> {
    let p = q.last();
    match a.node() {
        Err(e) => Err(e),
        Ok((a1, m)) => match a1.node() {
            Err(e) => Err(e),
            Ok((a2, n)) => {
                let got: Result<(Arena, usize, Seq<usize>), Error> = if o.len() > 0 {
                    Ok((a2, o.last(), o.drop_last()))
                } else {
                    match a2.group() {
                        Err(e) => Err(e),
                        Ok((a3, g)) => Ok((a3, g, o)),
                    }
                };
                match got {
                    Err(e) => Err(e),
                    Ok((a3, g, o2)) => Ok(
                        (
                            Arena {
                                head: a3.head.insert(m, g),
                                tail: a3.tail.insert(n, g),
                                ..a3
                            }.add_eps(m, p.0).add_eps(p.1, n),
                            q.drop_last().push((m, n, (p.2 + 2) as usize)),
                            o2,
                        ),
                    ),
                }
            },
        },
    }
}

/// Rounds `i..cap` of a repetition: round `min` makes the top fragment
/// optional, and every round but the last pushes a copy of it.
pub open spec fn repeat_rounds(
    a: Arena,
    q: Seq<(usize, usize, usize)>,
    f: (usize, usize, usize),
    i: int,
    cap: int,
    min: int,
) -> Result<(Arena, Seq<(usize, usize, usize)>), Error>
    decreases cap - i,
{
    if i < cap {
        let a1 = if i == min {
            a.add_eps(f.0, f.1)
        } else {
            a
        };
        if i + 1 < cap {
            match spec_copy_last(a1, f) {
                Err(e) => Err(e),
                Ok((a2, b)) => repeat_rounds(a2, q.push(b), b, i + 1, cap, min),
            }
        } else {
            repeat_rounds(a1, q, f, i + 1, cap, min)
        }
    } else {
        Ok((a, q))
    }
}

/// The top fragment repeated from `min` to `max` times; without `max`, the
/// last copy loops.
pub open spec fn spec_repeat(a: Arena, q: Seq<(usize, usize, usize)>, min: u32, max: Option<u32>) -> Result<
    (Arena, Seq<(usize, usize, usize)>),
    Error,
> {
    let cap: int = match max {
        Some(m) => m as int,
        None => min + 1,
    };
    match repeat_rounds(a, q, q.last(), 0, cap, min as int) {
        Err(e) => Err(e),
        Ok((a1, q1)) => if max is Some {
            Ok((a1, q1))
        } else {
            let p = q1.last();
            match a1.node() {
                Err(e) => Err(e),
                Ok((a2, m)) => match a2.node() {
                    Err(e) => Err(e),
                    Ok((a3, n)) => Ok(
                        (
                            a3.add_eps(m, p.0).add_eps(p.1, n).add_eps(n, m),
                            q1.drop_last().push((m, n, (p.2 + 2) as usize)),
                        ),
                    ),
                },
            }
        },
    }
}

/// What building one scope gives from the lexer state `(pos, pend)` on:
/// its fragment, the lexer state after its closing token, the arena and the
/// groups opened and not closed. `q`, `last` and `after` are the fragments
/// of the scope so far, the stack height at the last `|`, and whether the
/// last token was a quantifier.
pub open spec fn spec_scope(
    cfg: crate::config::Config,
    s: Seq<u8>,
    fuel: nat,
    pos: int,
    pend: Option<Lexeme>,
    top: bool,
    a: Arena,
    o: Seq<usize>,
    base: int,
    q: Seq<(usize, usize, usize)>,
    last: int,
    after: bool,
) -> Result<((usize, usize, usize), int, Option<Lexeme>, Arena, Seq<usize>), Error>
    decreases fuel, 1nat,
{
    if fuel == 0 {
        Err(Error::Empty)
    } else {
        match spec_next(cfg, s, pos, pend) {
            Err(e) => Err(e),
            Ok((t, p, d)) => scope_after(cfg, s, fuel, t, p, d, top, a, o, base, q, last, after),
        }
    }
}

/// [`spec_scope`] once token `t` has been read and left the lexer at
/// `(p, d)`.
#[verifier::opaque]
pub open spec fn scope_after(
    cfg: crate::config::Config,
    s: Seq<u8>,
    fuel: nat,
    t: Lexeme,
    p: int,
    d: Option<Lexeme>,
    top: bool,
    a: Arena,
    o: Seq<usize>,
    base: int,
    q: Seq<(usize, usize, usize)>,
    last: int,
    after: bool,
) -> Result<((usize, usize, usize), int, Option<Lexeme>, Arena, Seq<usize>), Error>
    decreases fuel, 0nat,
{
    if fuel == 0 {
        Err(Error::Empty)
    } else {
        let f = next_fuel(fuel, measure(s, p, d));
        match t {
            Lexeme::Close(eof) => if top != eof {
                Err(Error::Balance)
            } else if o.len() > base {
                Err(Error::Group)
            } else {
                match spec_join(a, q, last) {
                    Err(e) => Err(e),
                    Ok((a1, q1)) => match spec_union(a1, q1) {
                        Err(e) => Err(e),
                        Ok((a2, q2)) => if q2.len() == 0 {
                            Err(Error::Empty)
                        } else {
                            Ok((q2.last(), p, d, a2, o))
                        },
                    },
                }
            },
            Lexeme::Open => match spec_scope(cfg, s, f, p, d, false, a, o, o.len() as int, Seq::empty(), 0, false) {
                Err(e) => Err(e),
                Ok((fr, p3, d3, a3, o3)) => spec_scope(
                    cfg,
                    s,
                    next_fuel(fuel, measure(s, p3, d3)),
                    p3,
                    d3,
                    top,
                    a3,
                    o3,
                    base,
                    q.push(fr),
                    last,
                    false,
                ),
            },
            Lexeme::Char(c) => match spec_char(a, q, c) {
                Err(e) => Err(e),
                Ok((a1, q1)) => spec_scope(cfg, s, f, p, d, top, a1, o, base, q1, last, false),
            },
            Lexeme::Union => match spec_join(a, q, last) {
                Err(e) => Err(e),
                Ok((a1, q1)) => spec_scope(cfg, s, f, p, d, top, a1, o, base, q1, q1.len() as int, false),
            },
            Lexeme::StartGroup => match a.group() {
                Err(e) => Err(e),
                Ok((a1, g)) => spec_scope(cfg, s, f, p, d, top, a1, o.push(g), base, q, last, after),
            },
            Lexeme::EndGroup => if q.len() == last {
                Err(Error::Postfix)
            } else {
                match spec_close_group(a, q, o) {
                    Err(e) => Err(e),
                    Ok((a1, q1, o1)) => spec_scope(cfg, s, f, p, d, top, a1, o1, base, q1, last, false),
                }
            },
            Lexeme::Repeat(min, max) => if last == q.len() || after {
                Err(Error::Postfix)
            } else {
                match spec_repeat(a, q, min, max) {
                    Err(e) => Err(e),
                    Ok((a1, q1)) => spec_scope(cfg, s, f, p, d, top, a1, o, base, q1, last, true),
                }
            },
        }
    }
}

/// The NFA that Thompson's construction builds from the pattern `s` read
/// with `cfg` from `(pos, pend)` on, or the error it stops at (`Overflow`
/// when a node or group number would not fit in `usize`).
pub open spec fn thompson(cfg: crate::config::Config, s: Seq<u8>, pos: int, pend: Option<Lexeme>) -> Result<
    Thompson,
    Error,
> {
    match spec_scope(
        cfg,
        s,
        (measure(s, pos, pend) + 1) as nat,
        pos,
        pend,
        true,
        Arena::empty(),
        Seq::empty(),
        0,
        Seq::empty(),
        0,
        false,
    ) {
        Err(e) => Err(e),
        Ok((f, _, _, a, _)) => Ok(Thompson { arena: a, begin: f.0 }),
    }
}

/// Whether exactly one key of `m` maps to `g`.
pub open spec fn one_key(m: Map<usize, usize>, g: usize) -> bool {
    exists|k: usize|
        m.contains_key(k) && m[k] == g && forall|k2: usize| #[trigger]
            m.contains_key(k2) && m[k2] == g ==> k2 == k
}

/// Whether no key of `m` maps to `g`.
pub open spec fn no_key(m: Map<usize, usize>, g: usize) -> bool {
    forall|k: usize| #[trigger] m.contains_key(k) ==> m[k] != g
}

proof fn lemma_groups_frame(a: NFAUncooked, b: NFAUncooked, o: Seq<usize>)
    requires
        a.groups_ok(o),
        a.head@ == b.head@,
        a.tail@ == b.tail@,
        a.groups == b.groups,
    ensures
        b.groups_ok(o),
{
    assert forall|g: usize| g < b.groups implies #[trigger] b.group_ok(o, g) by {
        assert(a.group_ok(o, g));
    }
}

proof fn lemma_insert_other(m: Map<usize, usize>, a: usize, g: usize, h: usize)
    requires
        !m.contains_key(a),
        h != g,
    ensures
        one_key(m.insert(a, g), h) == one_key(m, h),
        no_key(m.insert(a, g), h) == no_key(m, h),
{
    let m2 = m.insert(a, g);
    if one_key(m, h) {
        let k = choose|k: usize|
            m.contains_key(k) && m[k] == h && forall|k2: usize| #[trigger]
                m.contains_key(k2) && m[k2] == h ==> k2 == k;
        assert(m2.contains_key(k) && m2[k] == h);
        assert forall|k2: usize| #[trigger] m2.contains_key(k2) && m2[k2] == h implies k2 == k by {
            assert(k2 != a);
            assert(m.contains_key(k2));
        }
    }
    if one_key(m2, h) {
        let k = choose|k: usize|
            m2.contains_key(k) && m2[k] == h && forall|k2: usize| #[trigger]
                m2.contains_key(k2) && m2[k2] == h ==> k2 == k;
        assert(k != a);
        assert(m.contains_key(k) && m[k] == h);
        assert forall|k2: usize| #[trigger] m.contains_key(k2) && m[k2] == h implies k2 == k by {
            assert(m2.contains_key(k2) && m2[k2] == h);
        }
    }
    if no_key(m, h) {
        assert forall|k: usize| #[trigger] m2.contains_key(k) implies m2[k] != h by {
            if k != a {
                assert(m.contains_key(k));
            }
        }
    }
    if no_key(m2, h) {
        assert forall|k: usize| #[trigger] m.contains_key(k) implies m[k] != h by {
            assert(m2.contains_key(k));
            assert(k != a);
        }
    }
}

proof fn lemma_insert_same(m: Map<usize, usize>, a: usize, g: usize)
    requires
        !m.contains_key(a),
        no_key(m, g),
    ensures
        one_key(m.insert(a, g), g),
{
    let m2 = m.insert(a, g);
    assert(m2.contains_key(a) && m2[a] == g);
    assert forall|k2: usize| #[trigger] m2.contains_key(k2) && m2[k2] == g implies k2 == a by {
        if k2 != a {
            assert(m.contains_key(k2));
        }
    }
}

/// A group opened by `StartGroup` is new, and no node opens or closes it yet.
proof fn lemma_groups_open(a: NFAUncooked, b: NFAUncooked, o: Seq<usize>, g: usize)
    requires
        a.building(),
        a.groups_ok(o),
        a.head@ == b.head@,
        a.tail@ == b.tail@,
        g == a.groups,
        b.groups == a.groups + 1,
    ensures
        b.groups_ok(o.push(g)),
{
    let o2 = o.push(g);
    assert(!o.contains(g));
    assert(o2.no_duplicates()) by {
        assert forall|i: int, j: int| 0 <= i < o2.len() && 0 <= j < o2.len() && i != j implies o2[i] != o2[j] by {
            if j == o.len() {
                assert(o[i] < a.groups);
            } else if i == o.len() {
                assert(o[j] < a.groups);
            }
        }
    }
    assert forall|h: usize| h < b.groups implies #[trigger] b.group_ok(o2, h) by {
        if h == g {
            assert(o2.contains(g)) by {
                assert(o2[o.len() as int] == g);
            }
        } else {
            assert(a.group_ok(o, h));
            assert(o2.contains(h) == o.contains(h)) by {
                if o2.contains(h) {
                    let i = choose|i: int| 0 <= i < o2.len() && o2[i] == h;
                    assert(o[i] == h);
                }
                if o.contains(h) {
                    let i = choose|i: int| 0 <= i < o.len() && o[i] == h;
                    assert(o2[i] == h);
                }
            }
        }
    }
}

/// The number of nodes that the fragments occupy together.
pub open spec fn total(q: Seq<(usize, usize, usize)>) -> nat
    decreases q.len(),
{
    if q.len() == 0 {
        0
    } else {
        total(q.drop_last()) + q.last().2 as nat
    }
}

proof fn lemma_total_last(q: Seq<(usize, usize, usize)>)
    requires
        q.len() > 0,
    ensures
        total(q) == total(q.drop_last()) + q.last().2,
        q.last().2 <= total(q),
{
}

proof fn lemma_total_push(q: Seq<(usize, usize, usize)>, f: (usize, usize, usize))
    ensures
        total(q.push(f)) == total(q) + f.2,
{
    assert(q.push(f).drop_last() =~= q);
}

impl NFAUncooked {
    /// Every node named lies in `0..nodes`, and every group in `0..groups`.
    pub open spec fn wf(&self) -> bool {
        self.begin < self.nodes && self.building()
    }

    /// Group `g` is opened and closed by no node while it stands in `o`
    /// (opened by `StartGroup`, not yet closed), and by exactly one node
    /// each once it does not.
    pub open spec fn group_ok(&self, o: Seq<usize>, g: usize) -> bool {
        if o.contains(g) {
            no_key(self.head@, g) && no_key(self.tail@, g)
        } else {
            one_key(self.head@, g) && one_key(self.tail@, g)
        }
    }

    /// Every group is as [`NFAUncooked::group_ok`] says, and `o` holds
    /// distinct groups.
    pub open spec fn groups_ok(&self, o: Seq<usize>) -> bool {
        &&& o.no_duplicates()
        &&& forall|i: int| 0 <= i < o.len() ==> o[i] < self.groups
        &&& forall|g: usize| g < self.groups ==> #[trigger] self.group_ok(o, g)
    }

    /// The NFA as plain values.
    pub open spec fn arena(&self) -> Arena {
        Arena {
            nodes: self.nodes,
            groups: self.groups,
            edges: self.edges@.map_values(|e: (usize, usize, Charset)| (e.0, e.1, e.2@)),
            eps: self.eps_edges@,
            head: self.head@,
            tail: self.tail@,
        }
    }

    /// [`NFAUncooked::wf`] but for `begin`, which is set last.
    pub open spec fn building(&self) -> bool {
        &&& forall|i: int|
            0 <= i < self.edges.len() ==> #[trigger] self.edges[i].0 < self.nodes
                && self.edges[i].1 < self.nodes
        &&& forall|i: int|
            0 <= i < self.eps_edges.len() ==> #[trigger] self.eps_edges[i].0 < self.nodes
                && self.eps_edges[i].1 < self.nodes
        &&& forall|n: usize| #[trigger]
            self.head@.contains_key(n) ==> n < self.nodes && self.head@[n] < self.groups
        &&& forall|n: usize| #[trigger]
            self.tail@.contains_key(n) ==> n < self.nodes && self.tail@[n] < self.groups
    }

    /// What the build only ever grows.
    pub open spec fn grows_into(&self, next: &NFAUncooked) -> bool {
        &&& self.nodes <= next.nodes
        &&& self.groups <= next.groups
    }

    /// A fragment whose nodes exist.
    pub open spec fn holds(&self, f: (usize, usize, usize)) -> bool {
        f.0 < self.nodes && f.1 < self.nodes
    }

    pub open spec fn holds_all(&self, q: Seq<(usize, usize, usize)>) -> bool {
        forall|i: int| 0 <= i < q.len() ==> self.holds(#[trigger] q[i])
    }

    fn node(&mut self) -> (r: Result<usize, Error>)
        requires
            old(self).building(),
        ensures
            final(self).begin == old(self).begin,
            final(self).building(),
            old(self).grows_into(final(self)),
            final(self).groups == old(self).groups,
            final(self).edges == old(self).edges,
            final(self).eps_edges == old(self).eps_edges,
            final(self).head == old(self).head,
            final(self).tail == old(self).tail,
            match r {
                Ok(n) => n == old(self).nodes && final(self).nodes == old(self).nodes + 1,
                Err(e) => e == Error::Overflow,
            },
            match old(self).arena().node() {
                Ok((a, n)) => r == Ok::<usize, Error>(n) && final(self).arena() == a,
                Err(e) => r == Err::<usize, Error>(e),
            },
    {
        if self.nodes == usize::MAX {
            return Err(Error::Overflow);
        }
        self.nodes = self.nodes + 1;
        Ok(self.nodes - 1)
    }

    fn group(&mut self) -> (r: Result<usize, Error>)
        requires
            old(self).building(),
        ensures
            final(self).begin == old(self).begin,
            final(self).building(),
            old(self).grows_into(final(self)),
            final(self).nodes == old(self).nodes,
            final(self).edges == old(self).edges,
            final(self).eps_edges == old(self).eps_edges,
            final(self).head == old(self).head,
            final(self).tail == old(self).tail,
            match r {
                Ok(g) => g == old(self).groups && final(self).groups == old(self).groups + 1,
                Err(e) => e == Error::Overflow,
            },
            match old(self).arena().group() {
                Ok((a, g)) => r == Ok::<usize, Error>(g) && final(self).arena() == a,
                Err(e) => r == Err::<usize, Error>(e),
            },
    {
        if self.groups == usize::MAX {
            return Err(Error::Overflow);
        }
        self.groups = self.groups + 1;
        Ok(self.groups - 1)
    }

    fn push_eps(&mut self, a: usize, b: usize)
        requires
            old(self).building(),
            a < old(self).nodes,
            b < old(self).nodes,
        ensures
            final(self).begin == old(self).begin,
            final(self).building(),
            final(self).nodes == old(self).nodes,
            final(self).groups == old(self).groups,
            final(self).edges == old(self).edges,
            final(self).eps_edges@ == old(self).eps_edges@.push((a, b)),
            final(self).head == old(self).head,
            final(self).tail == old(self).tail,
            final(self).arena() == old(self).arena().add_eps(a, b),
    {
        self.eps_edges.push((a, b));
    }

    fn push_edge(&mut self, a: usize, b: usize, c: Charset)
        requires
            old(self).building(),
            a < old(self).nodes,
            b < old(self).nodes,
        ensures
            final(self).begin == old(self).begin,
            final(self).building(),
            final(self).nodes == old(self).nodes,
            final(self).groups == old(self).groups,
            final(self).edges@ == old(self).edges@.push((a, b, c)),
            final(self).eps_edges == old(self).eps_edges,
            final(self).head == old(self).head,
            final(self).tail == old(self).tail,
            final(self).arena() == old(self).arena().add_edge(a, b, c@),
    {
        self.edges.push((a, b, c));
        proof {
            assert(self.arena().edges =~= old(self).arena().edges.push((a, b, c@)));
        }
    }

    /// Concatenates the fragments above `last` into one.
    fn join(&mut self, queue: &mut Vec<Fragment>, last: usize) -> (r: Result<(), Error>)
        requires
            old(self).building(),
            old(self).holds_all(old(queue)@),
            last <= old(queue).len(),
            total(old(queue)@) <= old(self).nodes,
        ensures
            final(self).head == old(self).head,
            final(self).tail == old(self).tail,
            final(self).building(),
            final(self).nodes == old(self).nodes,
            final(self).groups == old(self).groups,
            final(self).holds_all(final(queue)@),
            total(final(queue)@) == total(old(queue)@),
            final(queue)@.subrange(0, last as int) == old(queue)@.subrange(0, last as int),
            match r {
                Ok(_) => final(queue).len() == last + 1 && last < old(queue).len(),
                Err(e) => e == Error::Union && last == old(queue).len(),
            },
            match spec_join(old(self).arena(), old(queue)@, last as int) {
                Ok((a, q)) => r is Ok && final(self).arena() == a && final(queue)@ == q,
                Err(e) => r == Err::<(), Error>(e),
            },
    {
        if last == queue.len() {
            return Err(Error::Union);
        }
        while last < queue.len() - 1
            invariant
                self.building(),
                self.head == old(self).head,
                self.tail == old(self).tail,
                self.nodes == old(self).nodes,
                self.groups == old(self).groups,
                self.holds_all(queue@),
                total(queue@) == total(old(queue)@),
                total(old(queue)@) <= old(self).nodes,
                last < queue.len(),
                last <= old(queue).len(),
                queue@.subrange(0, last as int) == old(queue)@.subrange(0, last as int),
                join_rest(old(self).arena(), old(queue)@, last as int) == join_rest(
                    self.arena(),
                    queue@,
                    last as int,
                ),
            decreases queue.len(),
        {
            let ghost q0 = queue@;
            let ghost a0 = self.arena();
            let b = queue.pop().unwrap();
            let a = queue.pop().unwrap();
            proof {
                lemma_total_last(q0);
                lemma_total_last(q0.drop_last());
                assert(q0.drop_last().drop_last() =~= queue@);
                assert(self.holds(q0[q0.len() - 1]));
                assert(self.holds(q0[q0.len() - 2]));
            }
            self.push_eps(a.1, b.0);
            queue.push((a.0, b.1, a.2 + b.2));
            proof {
                assert(join_rest(a0, q0, last as int) == join_rest(self.arena(), queue@, last as int));
                lemma_total_push(q0.drop_last().drop_last(), (a.0, b.1, (a.2 + b.2) as usize));
                assert(queue@.subrange(0, last as int) =~= q0.subrange(0, last as int));
            }
        }
        Ok(())
    }

    /// Joins all fragments of the stack as alternatives, down to one.
    fn union(&mut self, queue: &mut Vec<Fragment>) -> (r: Result<(), Error>)
        requires
            old(self).building(),
            old(self).holds_all(old(queue)@),
            old(queue).len() >= 1,
            total(old(queue)@) <= old(self).nodes,
        ensures
            final(self).head == old(self).head,
            final(self).tail == old(self).tail,
            final(self).building(),
            final(self).groups == old(self).groups,
            old(self).nodes <= final(self).nodes,
            final(self).holds_all(final(queue)@),
            total(final(queue)@) + old(self).nodes <= total(old(queue)@) + final(self).nodes,
            r is Ok ==> final(queue).len() == 1,
            r matches Err(e) ==> e == Error::Overflow,
            match spec_union(old(self).arena(), old(queue)@) {
                Ok((a, q)) => r is Ok && final(self).arena() == a && final(queue)@ == q,
                Err(e) => r == Err::<(), Error>(e),
            },
    {
        while queue.len() > 1
            invariant
                self.building(),
                self.head == old(self).head,
                self.tail == old(self).tail,
                self.groups == old(self).groups,
                old(self).nodes <= self.nodes,
                self.holds_all(queue@),
                queue.len() >= 1,
                total(queue@) <= self.nodes,
                total(queue@) + old(self).nodes <= total(old(queue)@) + self.nodes,
                spec_union(old(self).arena(), old(queue)@) == spec_union(self.arena(), queue@),
            decreases queue.len(),
        {
            let ghost q0 = queue@;
            let ghost a0 = self.arena();
            let q = queue.pop().unwrap();
            let p = queue.pop().unwrap();
            proof {
                lemma_total_last(q0);
                lemma_total_last(q0.drop_last());
                assert(q0.drop_last().drop_last() =~= queue@);
                assert(self.holds(q0[q0.len() - 1]));
                assert(self.holds(q0[q0.len() - 2]));
            }
            let a = self.node()?;
            let b = self.node()?;
            self.push_eps(a, p.0);
            self.push_eps(a, q.0);
            self.push_eps(p.1, b);
            self.push_eps(q.1, b);
            proof {
                assert(total(q0) + old(self).nodes <= total(old(queue)@) + self.nodes);
            }
            queue.push((a, b, p.2 + q.2 + 2));
            proof {
                lemma_total_push(q0.drop_last().drop_last(), (a, b, (p.2 + q.2 + 2) as usize));
                assert(spec_union(a0, q0) == spec_union(self.arena(), queue@));
            }
        }
        Ok(())
    }

    /// Appends a copy of the fragment `p`, which occupies the top `p.2` nodes
    /// of the arena, together with the edges among its nodes.
    fn copy_last(&mut self, p: Fragment) -> (r: Result<Fragment, Error>)
        requires
            old(self).building(),
            old(self).holds(p),
            p.2 <= old(self).nodes,
        ensures
            final(self).begin == old(self).begin,
            final(self).building(),
            final(self).groups == old(self).groups,
            final(self).head == old(self).head,
            final(self).tail == old(self).tail,
            old(self).nodes <= final(self).nodes,
            match r {
                Ok(f) => final(self).holds(f) && f.2 == p.2 && final(self).nodes == old(self).nodes
                    + p.2,
                Err(e) => e == Error::Overflow,
            },
            match spec_copy_last(old(self).arena(), p) {
                Ok((a, f)) => r == Ok::<Fragment, Error>(f) && final(self).arena() == a,
                Err(e) => r == Err::<Fragment, Error>(e),
            },
    {
        let size = p.2;
        if self.nodes > usize::MAX - size {
            return Err(Error::Overflow);
        }
        let origin = self.nodes - size;
        let ghost old_nodes = self.nodes;
        let ghost e0 = old(self).arena().edges;
        let ghost p0 = old(self).arena().eps;
        self.nodes = self.nodes + size;
        let n = self.edges.len();
        let mut i = n;
        let mut go = true;
        while go && i > 0
            invariant
                self.building(),
                self.nodes == old_nodes + size,
                old_nodes == old(self).nodes,
                old(self).building(),
                self.begin == old(self).begin,
                origin == old_nodes - size,
                self.groups == old(self).groups,
                self.head == old(self).head,
                self.tail == old(self).tail,
                self.eps_edges == old(self).eps_edges,
                i <= n,
                n == old(self).edges.len(),
                n <= self.edges.len(),
                e0 == old(self).arena().edges,
                p0 == old(self).arena().eps,
                forall|j: int| 0 <= j < n ==> self.edges[j] == old(self).edges[j],
                self.arena().edges + copied_edges(e0, i as int, origin, size) == e0 + copied_edges(
                    e0,
                    n as int,
                    origin,
                    size,
                ),
                !go ==> copied_edges(e0, i as int, origin, size) == Seq::<(usize, usize, Set<u8>)>::empty(),
            decreases i + if go { 1int } else { 0int },
        {
            let (a, b, c) = self.edges[i - 1];
            proof {
                assert(old(self).edges[i - 1].0 < old_nodes && old(self).edges[i - 1].1 < old_nodes);
                assert(e0[i - 1] == (a, b, c@));
            }
            if a < origin && b < origin {
                go = false;
            } else {
                let ghost before = self.arena().edges;
                self.push_edge(a + size, b + size, c);
                proof {
                    let x = ((a + size) as usize, (b + size) as usize, c@);
                    assert(copied_edges(e0, i as int, origin, size) == seq![x] + copied_edges(
                        e0,
                        i - 1,
                        origin,
                        size,
                    ));
                    assert(self.arena().edges + copied_edges(e0, i - 1, origin, size) =~= before
                        + copied_edges(e0, i as int, origin, size));
                }
                i = i - 1;
            }
        }
        proof {
            assert(self.arena().edges =~= e0 + copied_edges(e0, n as int, origin, size));
        }
        let m = self.eps_edges.len();
        let mut k = m;
        let mut go2 = true;
        while go2 && k > 0
            invariant
                self.building(),
                self.nodes == old_nodes + size,
                old_nodes == old(self).nodes,
                old(self).building(),
                self.begin == old(self).begin,
                origin == old_nodes - size,
                self.groups == old(self).groups,
                self.head == old(self).head,
                self.tail == old(self).tail,
                self.arena().edges == e0 + copied_edges(e0, n as int, origin, size),
                k <= m,
                m == old(self).eps_edges.len(),
                m <= self.eps_edges.len(),
                p0 == old(self).eps_edges@,
                forall|j: int| 0 <= j < m ==> self.eps_edges[j] == old(self).eps_edges[j],
                self.eps_edges@ + copied_eps(p0, k as int, origin, size) == p0 + copied_eps(
                    p0,
                    m as int,
                    origin,
                    size,
                ),
                !go2 ==> copied_eps(p0, k as int, origin, size) == Seq::<(usize, usize)>::empty(),
            decreases k + if go2 { 1int } else { 0int },
        {
            let (a, b) = self.eps_edges[k - 1];
            proof {
                assert(old(self).eps_edges[k - 1].0 < old_nodes && old(self).eps_edges[k - 1].1
                    < old_nodes);
            }
            if a < origin || b < origin {
                go2 = false;
            } else {
                let ghost before = self.eps_edges@;
                self.push_eps(a + size, b + size);
                proof {
                    let x = ((a + size) as usize, (b + size) as usize);
                    assert(copied_eps(p0, k as int, origin, size) == seq![x] + copied_eps(
                        p0,
                        k - 1,
                        origin,
                        size,
                    ));
                    assert(self.eps_edges@ + copied_eps(p0, k - 1, origin, size) =~= before
                        + copied_eps(p0, k as int, origin, size));
                }
                k = k - 1;
            }
        }
        proof {
            assert(self.eps_edges@ =~= p0 + copied_eps(p0, m as int, origin, size));
        }
        Ok((p.0 + size, p.1 + size, size))
    }

    /// Pushes the fragment of one byte out of `cs`.
    fn push_char(&mut self, queue: &mut Vec<Fragment>, cs: Charset) -> (r: Result<(), Error>)
        requires
            old(self).building(),
            old(self).holds_all(old(queue)@),
        ensures
            final(self).head == old(self).head,
            final(self).tail == old(self).tail,
            final(self).building(),
            old(self).grows_into(final(self)),
            final(self).groups == old(self).groups,
            final(self).holds_all(final(queue)@),
            final(queue).len() >= old(queue).len(),
            r is Ok ==> final(queue).len() > old(queue).len(),
            total(final(queue)@) + old(self).nodes <= total(old(queue)@) + final(self).nodes,
            r matches Err(e) ==> e == Error::Overflow,
            match spec_char(old(self).arena(), old(queue)@, cs@) {
                Ok((a, q)) => r is Ok && final(self).arena() == a && final(queue)@ == q,
                Err(e) => r == Err::<(), Error>(e),
            },
    {
        let a = self.node()?;
        let b = self.node()?;
        self.push_edge(a, b, cs);
        let ghost q = queue@;
        queue.push((a, b, 2));
        proof {
            lemma_total_push(q, (a, b, 2));
        }
        Ok(())
    }

    /// Makes the top fragment a capture group: the innermost group opened by
    /// `StartGroup` and not yet closed, or a new one.
    fn close_group(&mut self, queue: &mut Vec<Fragment>, opened: &mut Vec<usize>) -> (r: Result<
        (),
        Error,
    >)
        requires
            old(self).building(),
            old(self).holds_all(old(queue)@),
            old(queue).len() >= 1,
            total(old(queue)@) <= old(self).nodes,
            forall|i: int| 0 <= i < old(opened).len() ==> old(opened)[i] < old(self).groups,
            old(self).groups_ok(old(opened)@),
        ensures
            final(self).building(),
            old(self).grows_into(final(self)),
            r is Ok ==> final(self).groups_ok(final(opened)@),
            final(self).holds_all(final(queue)@),
            forall|i: int| 0 <= i < final(opened).len() ==> final(opened)[i] < final(self).groups,
            final(queue).len() >= old(queue).len() - 1,
            r is Ok ==> final(queue).len() == old(queue).len(),
            total(final(queue)@) + old(self).nodes <= total(old(queue)@) + final(self).nodes,
            r matches Err(e) ==> e == Error::Overflow,
            match spec_close_group(old(self).arena(), old(queue)@, old(opened)@) {
                Ok((a, q, o)) => r is Ok && final(self).arena() == a && final(queue)@ == q
                    && final(opened)@ == o,
                Err(e) => r == Err::<(), Error>(e),
            },
    {
        let ghost q0 = queue@;
        let p = queue.pop().unwrap();
        proof {
            lemma_total_last(q0);
            assert(q0.drop_last() =~= queue@);
            assert(self.holds(q0[q0.len() - 1]));
        }
        let a = self.node()?;
        let b = self.node()?;
        let ghost o0 = opened@;
        let g = match opened.pop() {
            Some(g) => g,
            None => self.group()?,
        };
        proof {
            if o0.len() > 0 {
                assert(opened@ == o0.drop_last());
            }
        }
        let ghost mid = *self;
        let ghost o1 = opened@;
        proof {
            assert(!mid.head@.contains_key(a));
            assert(!mid.tail@.contains_key(b));
            assert(g < mid.groups);
            assert(!o1.contains(g) && no_key(mid.head@, g) && no_key(mid.tail@, g)) by {
                if o0.len() > 0 {
                    assert(o0 == o1.push(g));
                    assert(o0[o0.len() - 1] == g);
                    assert(old(self).group_ok(o0, g));
                    if o1.contains(g) {
                        let i = choose|i: int| 0 <= i < o1.len() && o1[i] == g;
                        assert(o0[i] == o0[o0.len() - 1]);
                    }
                } else {
                    assert(o1 =~= Seq::<usize>::empty());
                    assert forall|k: usize| #[trigger] mid.head@.contains_key(k) implies mid.head@[k] != g by {}
                    assert forall|k: usize| #[trigger] mid.tail@.contains_key(k) implies mid.tail@[k] != g by {}
                }
            }
        }
        self.head.insert(a, g);
        self.tail.insert(b, g);
        proof {
            lemma_insert_same(mid.head@, a, g);
            lemma_insert_same(mid.tail@, b, g);
            assert forall|i: int| 0 <= i < o1.len() implies o1[i] < self.groups by {
                if o0.len() > 0 {
                    assert(o1[i] == o0[i]);
                } else {
                    assert(o1 =~= Seq::<usize>::empty());
                }
            }
            assert(o1.no_duplicates()) by {
                if o0.len() > 0 {
                    assert forall|i: int, j: int| 0 <= i < o1.len() && 0 <= j < o1.len() && i != j implies o1[i] != o1[j] by {
                        assert(o1[i] == o0[i] && o1[j] == o0[j]);
                    }
                } else {
                    assert(o1 =~= Seq::<usize>::empty());
                }
            }
            assert forall|h: usize| h < self.groups implies #[trigger] self.group_ok(o1, h) by {
                if h != g {
                    lemma_insert_other(mid.head@, a, g, h);
                    lemma_insert_other(mid.tail@, b, g, h);
                    assert(h < old(self).groups);
                    assert(old(self).group_ok(o0, h));
                    assert(o1.contains(h) == o0.contains(h)) by {
                        if o0.len() > 0 {
                            assert(o0 == o1.push(g));
                            if o1.contains(h) {
                                let i = choose|i: int| 0 <= i < o1.len() && o1[i] == h;
                                assert(o0[i] == h);
                            }
                            if o0.contains(h) {
                                let i = choose|i: int| 0 <= i < o0.len() && o0[i] == h;
                                assert(i < o1.len());
                                assert(o1[i] == h);
                            }
                        }
                    }
                }
            }
            assert(self.groups_ok(o1));
        }
        let ghost before_eps = *self;
        self.push_eps(a, p.0);
        self.push_eps(p.1, b);
        proof {
            lemma_groups_frame(before_eps, *self, o1);
        }
        let ghost q = queue@;
        queue.push((a, b, p.2 + 2));
        proof {
            lemma_total_push(q, (a, b, (p.2 + 2) as usize));
        }
        Ok(())
    }

    /// Repeats the top fragment from `min` to `max` times (any number from
    /// `min` on when there is no `max`): copies of it follow it on the stack,
    /// those past the `min`-th can be skipped, and without `max` the last
    /// one loops.
    fn repeat(&mut self, queue: &mut Vec<Fragment>, min: u32, max: Option<u32>) -> (r: Result<
        (),
        Error,
    >)
        requires
            old(self).building(),
            old(self).holds_all(old(queue)@),
            old(queue).len() >= 1,
            total(old(queue)@) <= old(self).nodes,
            min <= 255,
            max matches Some(m) ==> 1 <= m <= 255 && min <= m,
        ensures
            final(self).head == old(self).head,
            final(self).tail == old(self).tail,
            final(self).building(),
            old(self).grows_into(final(self)),
            final(self).groups == old(self).groups,
            final(self).holds_all(final(queue)@),
            r is Ok ==> final(queue).len() >= old(queue).len(),
            total(final(queue)@) + old(self).nodes <= total(old(queue)@) + final(self).nodes,
            r matches Err(e) ==> e == Error::Overflow,
            match spec_repeat(old(self).arena(), old(queue)@, min, max) {
                Ok((a, q)) => r is Ok && final(self).arena() == a && final(queue)@ == q,
                Err(e) => r == Err::<(), Error>(e),
            },
    {
        let cap: u32 = match max {
            Some(m) => m,
            None => min + 1,
        };
        let mut a: Fragment = queue[queue.len() - 1];
        proof {
            lemma_total_last(queue@);
        }
        let mut i: u32 = 0;
        while i < cap
            invariant
                self.building(),
                self.head == old(self).head,
                self.tail == old(self).tail,
                old(self).grows_into(self),
                self.groups == old(self).groups,
                self.holds_all(queue@),
                total(queue@) <= self.nodes,
                total(queue@) + old(self).nodes <= total(old(queue)@) + self.nodes,
                queue.len() >= old(queue).len(),
                queue.len() >= 1,
                a == queue@.last(),
                i <= cap,
                cap == match max {
                    Some(m) => m as int,
                    None => min + 1,
                },
                repeat_rounds(old(self).arena(), old(queue)@, old(queue)@.last(), 0, cap as int, min as int)
                    == repeat_rounds(self.arena(), queue@, a, i as int, cap as int, min as int),
            decreases cap - i,
        {
            if i == min {
                proof {
                    assert(self.holds(queue@[queue.len() - 1]));
                }
                self.push_eps(a.0, a.1);
            }
            if i + 1 < cap {
                proof {
                    lemma_total_last(queue@);
                    assert(self.holds(queue@[queue.len() - 1]));
                }
                let b = self.copy_last(a)?;
                let ghost q = queue@;
                queue.push(b);
                proof {
                    lemma_total_push(q, b);
                }
                a = b;
            }
            i = i + 1;
        }
        if max.is_none() {
            let ghost q0 = queue@;
            let p = queue.pop().unwrap();
            proof {
                lemma_total_last(q0);
                assert(q0.drop_last() =~= queue@);
                assert(self.holds(q0[q0.len() - 1]));
            }
            let x = self.node()?;
            let y = self.node()?;
            self.push_eps(x, p.0);
            self.push_eps(p.1, y);
            self.push_eps(y, x);
            let ghost q = queue@;
            queue.push((x, y, p.2 + 2));
            proof {
                lemma_total_push(q, (x, y, (p.2 + 2) as usize));
            }
        }
        Ok(())
    }

    /// Builds the fragments of one scope (the whole pattern when `top`, else
    /// the inside of a `(...)` whose `Open` was just read) and returns the
    /// fragment they make together. `opened` holds the groups opened by
    /// `StartGroup` and not yet closed, innermost last.
    #[verifier::spinoff_prover]
    #[verifier::rlimit(100)]
    fn compile(
        &mut self,
        lex: &mut Lexer,
        top: bool,
        opened: &mut Vec<usize>,
    ) -> (r: Result<Fragment, Error>)
        requires
            old(self).building(),
            old(lex).wf(),
            forall|i: int| 0 <= i < old(opened).len() ==> old(opened)[i] < old(self).groups,
            old(self).groups_ok(old(opened)@),
        ensures
            final(self).building(),
            old(self).grows_into(final(self)),
            final(lex).wf(),
            final(lex).remaining() <= old(lex).remaining(),
            final(lex).input() == old(lex).input(),
            final(lex).config() == old(lex).config(),
            forall|i: int| 0 <= i < final(opened).len() ==> final(opened)[i] < final(self).groups,
            match r {
                Ok(f) => final(self).holds(f) && old(self).nodes + f.2 <= final(self).nodes
                    && final(self).groups_ok(final(opened)@) && final(opened).len() <= old(
                    opened,
                ).len(),
                Err(e) => is_build_error(e) || e == Error::Overflow,
            },
            match spec_scope(
                old(lex).config(),
                old(lex).input(),
                old(lex).remaining() + 1,
                old(lex).pos(),
                old(lex).pending_view(),
                top,
                old(self).arena(),
                old(opened)@,
                old(opened).len() as int,
                Seq::empty(),
                0,
                false,
            ) {
                Ok((f, p, d, a, o)) => {
                    &&& r == Ok::<Fragment, Error>(f)
                    &&& final(lex).pos() == p
                    &&& final(lex).pending_view() == d
                    &&& final(self).arena() == a
                    &&& final(opened)@ == o
                },
                Err(e) => r == Err::<Fragment, Error>(e),
            },
        decreases old(lex).remaining(),
    {
        let mut queue: Vec<Fragment> = Vec::new();
        let mut last_union: usize = 0;
        let mut after_repeat = false;
        let base = opened.len();
        loop
            invariant
                self.building(),
                old(self).grows_into(self),
                lex.wf(),
                lex.remaining() <= old(lex).remaining(),
                lex.input() == old(lex).input(),
                lex.config() == old(lex).config(),
                forall|i: int| 0 <= i < opened.len() ==> opened[i] < self.groups,
                self.groups_ok(opened@),
                base == old(opened).len(),
                self.holds_all(queue@),
                old(self).nodes + total(queue@) <= self.nodes,
                last_union <= queue.len(),
                spec_scope(
                    old(lex).config(),
                    old(lex).input(),
                    old(lex).remaining() + 1,
                    old(lex).pos(),
                    old(lex).pending_view(),
                    top,
                    old(self).arena(),
                    old(opened)@,
                    old(opened).len() as int,
                    Seq::empty(),
                    0,
                    false,
                ) == spec_scope(
                    lex.config(),
                    lex.input(),
                    lex.remaining() + 1,
                    lex.pos(),
                    lex.pending_view(),
                    top,
                    self.arena(),
                    opened@,
                    base as int,
                    queue@,
                    last_union as int,
                    after_repeat,
                ),
            decreases lex.remaining(),
        {
            let ghost before = *lex;
            let ghost s0 = *self;
            let ghost o0 = opened@;
            let tok = lex.token()?;
            proof {
                if tok != Token::Close(true) {
                    assert(next_fuel(before.remaining() + 1, measure(lex.input(), lex.pos(), lex.pending_view()))
                        == lex.remaining() + 1);
                }
            }
            match tok {
                Token::Close(eof) => {
                    proof {
                        reveal(scope_after);
                    }
                    if top != eof {
                        return Err(Error::Balance);
                    }
                    if opened.len() > base {
                        return Err(Error::Group);
                    }
                    self.join(&mut queue, last_union)?;
                    self.union(&mut queue)?;
                    proof {
                        lemma_groups_frame(s0, *self, opened@);
                    }
                    let ghost q = queue@;
                    match queue.pop() {
                        Some(f) => {
                            proof {
                                lemma_total_last(q);
                                assert(self.holds(q[q.len() - 1]));
                            }
                            return Ok(f);
                        },
                        None => {
                            return Err(Error::Empty);
                        },
                    }
                },
                Token::Open => {
                    proof {
                        reveal(scope_after);
                    }
                    let ghost mid = *lex;
                    let f = self.compile(lex, false, opened)?;
                    proof {
                        assert(lex.remaining() <= mid.remaining());
                        assert(mid.remaining() + 1 <= before.remaining());
                        lex.lemma_remaining();
                        assert(next_fuel(before.remaining() + 1, measure(lex.input(), lex.pos(), lex.pending_view()))
                            == lex.remaining() + 1);
                    }
                    let ghost q = queue@;
                    queue.push(f);
                    proof {
                        lemma_total_push(q, f);
                    }
                    after_repeat = false;
                },
                Token::Char(cs) => {
                    proof {
                        reveal(scope_after);
                    }
                    self.push_char(&mut queue, cs)?;
                    proof {
                        lemma_groups_frame(s0, *self, opened@);
                    }
                    after_repeat = false;
                },
                Token::Union => {
                    proof {
                        reveal(scope_after);
                    }
                    self.join(&mut queue, last_union)?;
                    proof {
                        lemma_groups_frame(s0, *self, opened@);
                    }
                    last_union = queue.len();
                    after_repeat = false;
                },
                Token::StartGroup => {
                    proof {
                        reveal(scope_after);
                    }
                    let g = self.group()?;
                    proof {
                        lemma_groups_open(s0, *self, o0, g);
                    }
                    opened.push(g);
                },
                Token::EndGroup => {
                    proof {
                        reveal(scope_after);
                    }
                    if queue.len() == last_union {
                        return Err(Error::Postfix);
                    }
                    self.close_group(&mut queue, opened)?;
                    after_repeat = false;
                },
                Token::Repeat(min, max) => {
                    proof {
                        reveal(scope_after);
                    }
                    if last_union == queue.len() || after_repeat {
                        return Err(Error::Postfix);
                    }
                    self.repeat(&mut queue, min, max)?;
                    proof {
                        lemma_groups_frame(s0, *self, opened@);
                    }
                    after_repeat = true;
                },
            }
        }
    }
}

/// Builds the Thompson NFA of the pattern that `lex` reads.
///
/// The result is exactly [`thompson`]: the NFA that the construction
/// defines, or the error it stops at (`Overflow` only where a node or group
/// number would not fit in `usize`). Every group of the result is opened by
/// exactly one node and closed by exactly one node.
pub fn nfa_uncooked(lex: Lexer) -> (r: Result<NFAUncooked, Error>)
    requires
        lex.wf(),
    ensures
        match r {
            Ok(n) => n.wf() && forall|g: usize|
                g < n.groups ==> #[trigger] one_key(n.head@, g) && one_key(n.tail@, g),
            Err(e) => is_build_error(e) || e == Error::Overflow,
        },
        match thompson(lex.config(), lex.input(), lex.pos(), lex.pending_view()) {
            Ok(t) => r matches Ok(n) && n.arena() == t.arena && n.begin == t.begin,
            Err(e) => r == Err::<NFAUncooked, Error>(e),
        },
{
    proof {
        lex.lemma_remaining();
    }
    let mut lex = lex;
    let mut nfa = NFAUncooked {
        nodes: 0,
        groups: 0,
        begin: 0,
        edges: Vec::new(),
        eps_edges: Vec::new(),
        head: HashMap::new(),
        tail: HashMap::new(),
    };
    let mut opened: Vec<usize> = Vec::new();
    proof {
        assert(nfa.arena().edges =~= Seq::<(usize, usize, Set<u8>)>::empty());
        assert(nfa.arena().head =~= Map::<usize, usize>::empty());
        assert(nfa.arena().tail =~= Map::<usize, usize>::empty());
        assert(nfa.arena() == Arena::empty());
        assert(opened@ =~= Seq::<usize>::empty());
        assert(nfa.groups_ok(opened@)) by {
            assert forall|g: usize| g < nfa.groups implies #[trigger] nfa.group_ok(opened@, g) by {}
        }
    }
    let f = nfa.compile(&mut lex, true, &mut opened)?;
    proof {
        assert(opened@.len() == 0);
        assert forall|g: usize| g < nfa.groups implies #[trigger] one_key(nfa.head@, g) && one_key(
            nfa.tail@,
            g,
        ) by {
            assert(nfa.group_ok(opened@, g));
            assert(!opened@.contains(g));
        }
    }
    nfa.begin = f.0;
    Ok(nfa)
}

} // verus!
