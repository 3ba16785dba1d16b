use vstd::prelude::*;
use vstd::set_lib::{lemma_len_subset, lemma_len_union, lemma_map_size_bound};
use crate::nfa::NFA;

verus! {

/// Every flag sequence of length `n`.
pub open spec fn all_flags(n: nat) -> Set<Seq<bool>>
    decreases n,
{
    if n == 0 {
        set![Seq::<bool>::empty()]
    } else {
        all_flags((n - 1) as nat).map(|s: Seq<bool>| s.push(true)).union(
            all_flags((n - 1) as nat).map(|s: Seq<bool>| s.push(false)),
        )
    }
}

/// `2^n`.
pub open spec fn bound(n: nat) -> nat
    decreases n,
{
    if n == 0 {
        1
    } else {
        2 * bound((n - 1) as nat)
    }
}

proof fn lemma_all_flags(n: nat)
    ensures
        all_flags(n).finite(),
        all_flags(n).len() <= bound(n),
        forall|s: Seq<bool>| s.len() == n ==> #[trigger] all_flags(n).contains(s),
    decreases n,
{
    if n == 0 {
        assert forall|s: Seq<bool>| s.len() == n implies #[trigger] all_flags(n).contains(s) by {
            assert(s =~= Seq::<bool>::empty());
        }
    } else {
        let m = (n - 1) as nat;
        lemma_all_flags(m);
        let a = all_flags(m);
        let t = a.map(|s: Seq<bool>| s.push(true));
        let f = a.map(|s: Seq<bool>| s.push(false));
        lemma_map_size_bound(a, t, |s: Seq<bool>| s.push(true));
        lemma_map_size_bound(a, f, |s: Seq<bool>| s.push(false));
        lemma_len_union(t, f);
        assert forall|s: Seq<bool>| s.len() == n implies #[trigger] all_flags(n).contains(s) by {
            let d = s.drop_last();
            assert(a.contains(d));
            assert(s =~= d.push(s.last()));
            if s.last() {
                assert(t.contains(s));
            } else {
                assert(f.contains(s));
            }
        }
    }
}

/// Distinct flag sequences of length `n` number at most `2^n`.
proof fn lemma_distinct_bound(ss: Seq<Seq<bool>>, n: nat)
    requires
        ss.no_duplicates(),
        forall|i: int| 0 <= i < ss.len() ==> (#[trigger] ss[i]).len() == n,
    ensures
        ss.len() <= bound(n),
{
    lemma_all_flags(n);
    ss.unique_seq_to_set();
    assert forall|s: Seq<bool>| ss.to_set().contains(s) implies all_flags(n).contains(s) by {
        let i = choose|i: int| 0 <= i < ss.len() && ss[i] == s;
        assert(ss[i].len() == n);
    }
    lemma_len_subset(ss.to_set(), all_flags(n));
}

/// The NFA nodes reachable on byte `c` from the nodes flagged in `s`.
pub open spec fn step(nfa: NFA, s: Seq<bool>, c: u8) -> Seq<bool> {
    Seq::new(
        nfa.nodes.len() as nat,
        |q: int| exists|n: int| 0 <= n < nfa.nodes.len() && s[n] && (#[trigger] nfa.nodes[n].edges[q])@.contains(c),
    )
}

/// Whether some flag is set.
pub open spec fn any_flag(s: Seq<bool>) -> bool {
    exists|q: int| 0 <= q < s.len() && s[q]
}

/// Whether some node flagged in `s` opens (`heads`) or closes group `g`.
pub open spec fn marked(nfa: NFA, s: Seq<bool>, g: int, heads: bool) -> bool {
    exists|n: int| 0 <= n < nfa.nodes.len() && s[n] && #[trigger] mark_of(nfa, n, g, heads)
}

/// Whether NFA node `n` opens (`heads`) or closes group `g`.
pub open spec fn mark_of(nfa: NFA, n: int, g: int, heads: bool) -> bool {
    if heads {
        nfa.nodes[n].head[g]
    } else {
        nfa.nodes[n].tail[g]
    }
}

proof fn lemma_bound_pos(n: nat)
    ensures
        bound(n) >= 1,
    decreases n,
{
    if n > 0 {
        lemma_bound_pos((n - 1) as nat);
    }
}

/// The nodes that byte `c` leads to from the nodes flagged in `s`.
fn step_of(nfa: &NFA, s: &Vec<bool>, c: u8) -> (r: Vec<bool>)
    requires
        nfa.wf(),
        s.len() == nfa.nodes.len(),
    ensures
        r@ == step(*nfa, s@, c),
{
    let n = nfa.nodes.len();
    let mut r: Vec<bool> = Vec::new();
    let mut q: usize = 0;
    while q < n
        invariant
            nfa.wf(),
            n == nfa.nodes.len(),
            s.len() == n,
            q <= n,
            r.len() == q,
            forall|k: int| 0 <= k < q ==> #[trigger] r[k] == step(*nfa, s@, c)[k],
        decreases n - q,
    {
        let mut hit = false;
        let mut m: usize = 0;
        while m < n
            invariant
                nfa.wf(),
                n == nfa.nodes.len(),
                s.len() == n,
                q < n,
                m <= n,
                hit == exists|k: int| 0 <= k < m && s[k] && (#[trigger] nfa.nodes[k].edges[q as int])@.contains(c),
            decreases n - m,
        {
            assert(nfa.nodes[m as int].edges.len() == n);
            if s[m] && nfa.nodes[m].edges[q].contains(c) {
                hit = true;
            }
            m = m + 1;
        }
        r.push(hit);
        q = q + 1;
    }
    proof {
        assert(r@ =~= step(*nfa, s@, c));
    }
    r
}

/// For each group, whether a node flagged in `s` opens (`heads`) or closes it.
fn marks_of(nfa: &NFA, s: &Vec<bool>, heads: bool) -> (r: Vec<bool>)
    requires
        nfa.wf(),
        s.len() == nfa.nodes.len(),
    ensures
        r.len() == nfa.groups,
        forall|g: int| 0 <= g < nfa.groups ==> #[trigger] r[g] == marked(*nfa, s@, g, heads),
{
    let n = nfa.nodes.len();
    let mut r: Vec<bool> = Vec::new();
    let mut g: usize = 0;
    while g < nfa.groups
        invariant
            nfa.wf(),
            n == nfa.nodes.len(),
            s.len() == n,
            g <= nfa.groups,
            r.len() == g,
            forall|k: int| 0 <= k < g ==> #[trigger] r[k] == marked(*nfa, s@, k, heads),
        decreases nfa.groups - g,
    {
        let mut hit = false;
        let mut m: usize = 0;
        while m < n
            invariant
                nfa.wf(),
                n == nfa.nodes.len(),
                s.len() == n,
                g < nfa.groups,
                m <= n,
                hit == exists|k: int| 0 <= k < m && s[k] && #[trigger] mark_of(*nfa, k, g as int, heads),
            decreases n - m,
        {
            let mark = if heads {
                nfa.nodes[m].head[g]
            } else {
                nfa.nodes[m].tail[g]
            };
            proof {
                assert(mark == mark_of(*nfa, m as int, g as int, heads));
            }
            if s[m] && mark {
                hit = true;
            }
            m = m + 1;
        }
        r.push(hit);
        g = g + 1;
    }
    r
}

/// Whether some flag is set.
fn any_set(s: &Vec<bool>) -> (r: bool)
    ensures
        r == any_flag(s@),
{
    let mut i: usize = 0;
    while i < s.len()
        invariant
            i <= s.len(),
            forall|k: int| 0 <= k < i ==> !s[k],
        decreases s.len() - i,
    {
        if s[i] {
            return true;
        }
        i = i + 1;
    }
    false
}

/// Whether two flag vectors are equal.
fn same_flags(a: &Vec<bool>, b: &Vec<bool>) -> (r: bool)
    ensures
        r == (a@ == b@),
{
    if a.len() != b.len() {
        return false;
    }
    let mut i: usize = 0;
    while i < a.len()
        invariant
            a.len() == b.len(),
            i <= a.len(),
            forall|k: int| 0 <= k < i ==> a[k] == b[k],
        decreases a.len() - i,
    {
        if a[i] != b[i] {
            return false;
        }
        i = i + 1;
    }
    proof {
        assert(a@ =~= b@);
    }
    true
}

/// The index of the state standing for the node set `t`, if there is one.
fn find_state(states: &Vec<Vec<bool>>, t: &Vec<bool>) -> (r: Option<usize>)
    ensures
        match r {
            Some(j) => j < states.len() && states[j as int]@ == t@,
            None => forall|j: int| 0 <= j < states.len() ==> #[trigger] states[j]@ != t@,
        },
{
    let mut j: usize = 0;
    while j < states.len()
        invariant
            j <= states.len(),
            forall|k: int| 0 <= k < j ==> #[trigger] states[k]@ != t@,
        decreases states.len() - j,
    {
        if same_flags(&states[j], t) {
            return Some(j);
        }
        j = j + 1;
    }
    None
}

/// The table read row by row.
pub open spec fn flat(rows: Seq<Vec<Option<usize>>>) -> Seq<Option<usize>>
    decreases rows.len(),
{
    if rows.len() == 0 {
        Seq::empty()
    } else {
        flat(rows.drop_last()) + rows.last()@
    }
}

/// The number of states known once the entries `e` are filled in, in order:
/// the start state, and one more for each entry that names the next new one.
pub open spec fn known(e: Seq<Option<usize>>) -> nat
    decreases e.len(),
{
    if e.len() == 0 {
        1
    } else {
        let k = known(e.drop_last());
        if e.last() == Some(k as usize) {
            k + 1
        } else {
            k
        }
    }
}

/// Every entry names a state already known or the next new one: states are
/// numbered in the order in which the entries first lead to them.
pub open spec fn in_order(e: Seq<Option<usize>>) -> bool {
    forall|k: int| 0 <= k < e.len() ==> (#[trigger] e[k] matches Some(j) ==> j <= known(e.subrange(0, k)))
}

proof fn lemma_in_order_push(e: Seq<Option<usize>>, x: Option<usize>)
    requires
        in_order(e),
        x matches Some(j) ==> j <= known(e),
    ensures
        in_order(e.push(x)),
        known(e.push(x)) == if x == Some(known(e) as usize) {
            known(e) + 1
        } else {
            known(e)
        },
{
    let f = e.push(x);
    assert(f.drop_last() =~= e);
    assert forall|k: int| 0 <= k < f.len() implies (#[trigger] f[k] matches Some(j) ==> j <= known(
        f.subrange(0, k),
    )) by {
        if k < e.len() {
            assert(f.subrange(0, k) =~= e.subrange(0, k));
            assert(f[k] == e[k]);
        } else {
            assert(f.subrange(0, k) =~= e);
        }
    }
}

proof fn lemma_flat_push(rows: Seq<Vec<Option<usize>>>, r: Vec<Option<usize>>)
    ensures
        flat(rows.push(r)) == flat(rows) + r@,
{
    assert(rows.push(r).drop_last() =~= rows);
}

/// Whether some entry of the first `rows` rows, in a row before `t`, leads
/// to state `t`.
pub open spec fn named_before(nodes: Seq<Vec<Option<usize>>>, t: int, rows: int) -> bool {
    exists|i: int, c: int|
        0 <= i < rows && i < t && 0 <= c < 256 && #[trigger] nodes[i]@[c] == Some(t as usize)
}

/// The DFA obtained from an NFA by subset construction. `states[i]` flags the
/// NFA nodes that DFA state `i` stands for; `nodes[i][c]` is the state that
/// byte `c` leads to from state `i`, if any.
pub struct DFA {
    pub nodes: Vec<Vec<Option<usize>>>,
    pub head: Vec<Vec<bool>>,
    pub tail: Vec<Vec<bool>>,
    pub states: Vec<Vec<bool>>,
}

impl DFA {
    /// State `i` carries the groups of its NFA nodes.
    pub open spec fn marks_ok(&self, nfa: NFA, i: int) -> bool {
        &&& self.head[i].len() == nfa.groups
        &&& self.tail[i].len() == nfa.groups
        &&& forall|g: int|
            0 <= g < nfa.groups ==> #[trigger] self.head[i][g] == marked(nfa, self.states[i]@, g, true)
        &&& forall|g: int|
            0 <= g < nfa.groups ==> #[trigger] self.tail[i][g] == marked(nfa, self.states[i]@, g, false)
    }

    /// Entry `c` of row `i` follows the NFA: no entry when byte `c` leads
    /// nowhere, else the state of the node set it leads to.
    pub open spec fn entry_ok(&self, nfa: NFA, i: int, c: int) -> bool {
        let t = step(nfa, self.states[i]@, c as u8);
        match self.nodes[i][c] {
            None => !any_flag(t),
            Some(j) => j < self.states.len() && self.states[j as int]@ == t,
        }
    }

    /// The states found so far: distinct node sets, the first one `{begin}`,
    /// each with its groups.
    pub open spec fn states_ok(&self, nfa: NFA) -> bool {
        &&& self.states.len() >= 1
        &&& self.head.len() == self.states.len()
        &&& self.tail.len() == self.states.len()
        &&& self.states[0]@ == Seq::new(nfa.nodes.len() as nat, |q: int| q == nfa.begin)
        &&& forall|i: int| 0 <= i < self.states.len() ==> (#[trigger] self.states[i]).len() == nfa.nodes.len()
        &&& forall|i: int| 0 <= i < self.states.len() ==> any_flag(#[trigger] self.states[i]@)
        &&& forall|i: int, j: int|
            0 <= i < j < self.states.len() ==> #[trigger] self.states[i]@ != #[trigger] self.states[j]@
        &&& forall|i: int| 0 <= i < self.states.len() ==> #[trigger] self.marks_ok(nfa, i)
    }

    /// The complete subset construction of `nfa`, with states numbered in
    /// the order in which the rows, taken in order and each from byte 0 to
    /// 255, first lead to them.
    pub open spec fn built_from(&self, nfa: NFA) -> bool {
        &&& self.states_ok(nfa)
        &&& in_order(flat(self.nodes@))
        &&& known(flat(self.nodes@)) == self.states.len()
        &&& forall|t: int| 0 < t < self.states.len() ==> #[trigger] named_before(self.nodes@, t, self.nodes.len() as int)
        &&& self.nodes.len() == self.states.len()
        &&& forall|i: int| 0 <= i < self.nodes.len() ==> (#[trigger] self.nodes[i]).len() == 256
        &&& forall|i: int, c: int| 0 <= i < self.nodes.len() && 0 <= c < 256 ==> #[trigger] self.entry_ok(nfa, i, c)
    }

    /// A byte leads from a state to at most one state: the one standing for
    /// the node set that the byte leads to.
    pub proof fn lemma_successor_unique(&self, nfa: NFA, i: int, c: u8, j: int, k: int)
        requires
            self.built_from(nfa),
            0 <= i < self.states.len(),
            0 <= j < self.states.len(),
            0 <= k < self.states.len(),
            self.states[j]@ == step(nfa, self.states[i]@, c),
            self.states[k]@ == step(nfa, self.states[i]@, c),
        ensures
            j == k,
            self.nodes[i][c as int] == Some(j as usize),
    {
        if j < k {
            assert(self.states[j]@ != self.states[k]@);
        }
        if k < j {
            assert(self.states[k]@ != self.states[j]@);
        }
        assert(self.entry_ok(nfa, i, c as int));
        assert((c as int) as u8 == c);
        let t = step(nfa, self.states[i]@, c);
        match self.nodes[i][c as int] {
            None => {
                assert(t.len() == nfa.nodes.len());
                assert(self.states[i].len() == nfa.nodes.len());
                assert(self.states[j]@ == t);
                assert(any_flag(self.states[j]@));
            },
            Some(m) => {
                if (m as int) < j {
                    assert(self.states[m as int]@ != self.states[j]@);
                }
                if (m as int) > j {
                    assert(self.states[j]@ != self.states[m as int]@);
                }
                assert(m as int == j);
            },
        }
    }
}

/// Builds the DFA of `nfa` by subset construction: state 0 stands for
/// `{begin}`, new node sets become states in the order they are met (states
/// taken in order, bytes from 0 to 255), and every state carries the groups of
/// its nodes.
pub fn build_dfa(nfa: NFA) -> (r: DFA)
    requires
        nfa.wf(),
    ensures
        r.built_from(nfa),
        r.states.len() <= bound(nfa.nodes.len() as nat),
{
    let n = nfa.nodes.len();
    let mut start: Vec<bool> = Vec::new();
    while start.len() < n
        invariant
            start.len() <= n,
            nfa.wf(),
            n == nfa.nodes.len(),
            forall|q: int| 0 <= q < start.len() ==> start[q] == (q == nfa.begin),
        decreases n - start.len(),
    {
        let flag = start.len() == nfa.begin;
        start.push(flag);
    }
    proof {
        assert(start@ =~= Seq::new(n as nat, |q: int| q == nfa.begin));
        assert(start@[nfa.begin as int]);
    }
    let h0 = marks_of(&nfa, &start, true);
    let t0 = marks_of(&nfa, &start, false);
    let mut dfa = DFA { nodes: Vec::new(), head: Vec::new(), tail: Vec::new(), states: Vec::new() };
    dfa.states.push(start);
    dfa.head.push(h0);
    dfa.tail.push(t0);
    proof {
        assert(dfa.marks_ok(nfa, 0));
        lemma_bound_pos(n as nat);
    }
    proof {
        assert(flat(dfa.nodes@) =~= Seq::<Option<usize>>::empty());
    }
    let mut id: usize = 0;
    while id < dfa.states.len()
        invariant
            nfa.wf(),
            n == nfa.nodes.len(),
            dfa.states_ok(nfa),
            id <= dfa.states.len(),
            dfa.nodes.len() == id,
            forall|i: int| 0 <= i < id ==> (#[trigger] dfa.nodes[i]).len() == 256,
            forall|i: int, c: int| 0 <= i < id && 0 <= c < 256 ==> #[trigger] dfa.entry_ok(nfa, i, c),
            dfa.states.len() <= bound(n as nat),
            in_order(flat(dfa.nodes@)),
            known(flat(dfa.nodes@)) == dfa.states.len(),
            forall|t: int| 0 < t < dfa.states.len() ==> #[trigger] named_before(dfa.nodes@, t, id as int),
        decreases bound(n as nat) - id,
    {
        let mut row: Vec<Option<usize>> = Vec::new();
        let mut c: u16 = 0;
        while c < 256
            invariant
                nfa.wf(),
                n == nfa.nodes.len(),
                dfa.states_ok(nfa),
                id < dfa.states.len(),
                dfa.nodes.len() == id,
                forall|i: int| 0 <= i < id ==> (#[trigger] dfa.nodes[i]).len() == 256,
                forall|i: int, d: int| 0 <= i < id && 0 <= d < 256 ==> #[trigger] dfa.entry_ok(nfa, i, d),
                dfa.states.len() <= bound(n as nat),
                in_order(flat(dfa.nodes@) + row@),
                known(flat(dfa.nodes@) + row@) == dfa.states.len(),
                forall|t: int|
                    0 < t < dfa.states.len() ==> #[trigger] named_before(dfa.nodes@, t, id as int) || (id
                        < t && exists|c: int| 0 <= c < row.len() && row@[c] == Some(t as usize)),
                c <= 256,
                row.len() == c,
                forall|d: int| 0 <= d < c ==> match #[trigger] row[d] {
                    None => !any_flag(step(nfa, dfa.states[id as int]@, d as u8)),
                    Some(j) => j < dfa.states.len() && dfa.states[j as int]@ == step(
                        nfa,
                        dfa.states[id as int]@,
                        d as u8,
                    ),
                },
            decreases 256 - c,
        {
            let t = step_of(&nfa, &dfa.states[id], c as u8);
            let ghost e = flat(dfa.nodes@) + row@;
            if !any_set(&t) {
                proof {
                    lemma_in_order_push(e, None);
                    assert(e.push(None) =~= flat(dfa.nodes@) + row@.push(None));
                }
                let ghost row0 = row@;
                row.push(None);
                proof {
                    assert forall|t: int|
                        0 < t < dfa.states.len() implies #[trigger] named_before(dfa.nodes@, t, id as int) || (id
                            < t && exists|c: int| 0 <= c < row.len() && row@[c] == Some(t as usize)) by {
                        if !named_before(dfa.nodes@, t, id as int) {
                            let c = choose|c: int| 0 <= c < row0.len() && row0[c] == Some(t as usize);
                            assert(row@[c] == row0[c]);
                        }
                    }
                }
            } else {
                match find_state(&dfa.states, &t) {
                    Some(j) => {
                        let ghost row0 = row@;
                        proof {
                            lemma_in_order_push(e, Some(j));
                            assert(e.push(Some(j)) =~= flat(dfa.nodes@) + row@.push(Some(j)));
                        }
                        row.push(Some(j));
                        proof {
                            assert forall|t: int|
                                0 < t < dfa.states.len() implies #[trigger] named_before(dfa.nodes@, t, id as int) || (id
                                    < t && exists|c: int| 0 <= c < row.len() && row@[c] == Some(t as usize)) by {
                                if !named_before(dfa.nodes@, t, id as int) {
                                    let c = choose|c: int| 0 <= c < row0.len() && row0[c] == Some(t as usize);
                                    assert(row@[c] == row0[c]);
                                }
                            }
                        }
                    },
                    None => {
                        let ghost views = dfa.states@.map_values(|v: Vec<bool>| v@).push(t@);
                        proof {
                            assert forall|a: int, b: int|
                                0 <= a < views.len() && 0 <= b < views.len() && a != b implies views[a]
                                != views[b] by {
                                if a < b {
                                    if b < dfa.states.len() {
                                        assert(dfa.states[a]@ != dfa.states[b]@);
                                    }
                                } else {
                                    if a < dfa.states.len() {
                                        assert(dfa.states[b]@ != dfa.states[a]@);
                                    }
                                }
                            }
                            assert forall|a: int| 0 <= a < views.len() implies (#[trigger] views[a]).len()
                                == n by {
                                if a < dfa.states.len() {
                                    assert(dfa.states[a].len() == n);
                                }
                            }
                            lemma_distinct_bound(views, n as nat);
                        }
                        let h = marks_of(&nfa, &t, true);
                        let tl = marks_of(&nfa, &t, false);
                        let ghost old_dfa = dfa;
                        dfa.states.push(t);
                        dfa.head.push(h);
                        dfa.tail.push(tl);
                        proof {
                            let last = dfa.states.len() - 1;
                            assert(dfa.marks_ok(nfa, last));
                            assert forall|i: int| 0 <= i < dfa.states.len() implies #[trigger] dfa.marks_ok(nfa, i) by {
                                if i < last {
                                    assert(old_dfa.marks_ok(nfa, i));
                                }
                            }
                            assert forall|i: int, j: int|
                                0 <= i < j < dfa.states.len() implies #[trigger] dfa.states[i]@ != #[trigger] dfa.states[j]@ by {
                                if j < last {
                                    assert(old_dfa.states[i]@ != old_dfa.states[j]@);
                                }
                            }
                            assert forall|i: int| 0 <= i < dfa.states.len() implies any_flag(#[trigger] dfa.states[i]@) by {
                                if i < last {
                                    assert(any_flag(old_dfa.states[i]@));
                                }
                            }
                            assert forall|i: int, d: int| 0 <= i < id && 0 <= d < 256 implies #[trigger] dfa.entry_ok(nfa, i, d) by {
                                assert(old_dfa.entry_ok(nfa, i, d));
                            }
                        }
                        proof {
                            lemma_in_order_push(e, Some((dfa.states.len() - 1) as usize));
                            assert(e.push(Some((dfa.states.len() - 1) as usize)) =~= flat(dfa.nodes@)
                                + row@.push(Some((dfa.states.len() - 1) as usize)));
                        }
                        let ghost row0 = row@;
                        row.push(Some(dfa.states.len() - 1));
                        proof {
                            let last = dfa.states.len() - 1;
                            assert(row@[row.len() - 1] == Some(last as usize));
                            assert forall|t: int|
                                0 < t < dfa.states.len() implies #[trigger] named_before(dfa.nodes@, t, id as int) || (id
                                    < t && exists|c: int| 0 <= c < row.len() && row@[c] == Some(t as usize)) by {
                                if t < last && !named_before(dfa.nodes@, t, id as int) {
                                    let c = choose|c: int| 0 <= c < row0.len() && row0[c] == Some(t as usize);
                                    assert(row@[c] == row0[c]);
                                }
                            }
                        }
                    },
                }
            }
            proof {
                assert((c as int) as u8 == c as u8);
            }
            c = c + 1;
        }
        let ghost old_dfa = dfa;
        dfa.nodes.push(row);
        proof {
            lemma_flat_push(old_dfa.nodes@, row);
            assert forall|t: int| 0 < t < dfa.states.len() implies #[trigger] named_before(dfa.nodes@, t, id + 1) by {
                if named_before(old_dfa.nodes@, t, id as int) {
                    let (i, c) = choose|i: int, c: int|
                        0 <= i < id && i < t && 0 <= c < 256 && #[trigger] old_dfa.nodes@[i]@[c] == Some(t as usize);
                    assert(dfa.nodes@[i] == old_dfa.nodes@[i]);
                    assert(dfa.nodes@[i]@[c] == Some(t as usize));
                } else {
                    let c = choose|c: int| 0 <= c < row.len() && row@[c] == Some(t as usize);
                    assert(dfa.nodes@[id as int] == row);
                    assert(dfa.nodes@[id as int]@[c] == Some(t as usize));
                }
            }
            assert forall|i: int| 0 <= i < dfa.states.len() implies #[trigger] dfa.marks_ok(nfa, i) by {
                assert(old_dfa.marks_ok(nfa, i));
            }
            assert forall|i: int, d: int| 0 <= i < id + 1 && 0 <= d < 256 implies #[trigger] dfa.entry_ok(nfa, i, d) by {
                if i < id {
                    assert(old_dfa.entry_ok(nfa, i, d));
                } else {
                    assert(dfa.nodes[i] == row);
                    assert(row[d] == dfa.nodes[i][d]);
                }
            }
        }
        id = id + 1;
    }
    dfa
}

} // verus!
