use vstd::prelude::*;
use std::collections::{HashMap, HashSet};
use crate::config::{Config, Error};
use crate::dfa::{DFA, build_dfa};
use crate::lexer::Lexer;
use crate::nfa::{NFA, build_nfa};
use crate::nfa_uncooked::{NFAUncooked, is_build_error, thompson};

verus! {

broadcast use vstd::std_specs::hash::group_hash_axioms;

/// A compiled pattern: for each DFA state, the state each byte leads to (if
/// any), and the groups that open (`head`) and close (`tail`) there. State 0
/// is the start; a match ends where group 0 closes.
pub struct Regex {
    pub nodes: Vec<Vec<Option<usize>>>,
    pub head: Vec<Vec<bool>>,
    pub tail: Vec<Vec<bool>>,
}

impl Regex {
    /// Finitely many states, each with a table of 256 entries that name
    /// existing states.
    pub open spec fn wf(&self) -> bool {
        &&& self.nodes.len() >= 1
        &&& self.head.len() == self.nodes.len()
        &&& self.tail.len() == self.nodes.len()
        &&& forall|i: int| 0 <= i < self.nodes.len() ==> (#[trigger] self.nodes[i]).len() == 256
        &&& forall|i: int, c: int|
            0 <= i < self.nodes.len() && 0 <= c < 256 ==> (#[trigger] self.nodes[i][c] matches Some(
                j,
            ) ==> j < self.nodes.len())
    }

    /// Whether state `st` closes group 0.
    pub open spec fn accepting(&self, st: usize) -> bool {
        self.tail[st as int].len() > 0 && self.tail[st as int][0]
    }

    /// The state reached from the start by the `k` bytes of `s` from `i` on,
    /// or none if a byte has no transition.
    pub open spec fn run(&self, s: Seq<u8>, i: int, k: nat) -> Option<usize>
        decreases k,
    {
        if k == 0 {
            Some(0usize)
        } else {
            match self.run(s, i, (k - 1) as nat) {
                None => None,
                Some(st) => self.nodes[st as int][s[i + k - 1] as int],
            }
        }
    }

    /// Whether the bytes of `s` from `i` up to `j` take the start to a state
    /// that closes group 0.
    pub open spec fn matches_at(&self, s: Seq<u8>, i: int, j: int) -> bool {
        &&& 0 <= i <= j <= s.len()
        &&& self.run(s, i, (j - i) as nat) matches Some(st) && self.accepting(st)
    }

    /// Whether `(i, j)` is the leftmost match, and the longest one from `i`.
    pub open spec fn leftmost_longest(&self, s: Seq<u8>, i: int, j: int) -> bool {
        &&& self.matches_at(s, i, j)
        &&& forall|a: int, b: int| 0 <= a < i ==> !self.matches_at(s, a, b)
        &&& forall|b: int| j < b ==> !self.matches_at(s, i, b)
    }

    /// Whether, on the run from `i`, the state at position `p` opens
    /// (`heads`) or closes group `g`.
    pub open spec fn marks_at(&self, s: Seq<u8>, i: int, p: int, g: int, heads: bool) -> bool {
        &&& i <= p <= s.len()
        &&& match self.run(s, i, (p - i) as nat) {
            Some(st) => {
                let row = if heads {
                    self.head[st as int]
                } else {
                    self.tail[st as int]
                };
                0 <= g < row.len() && row[g]
            },
            None => false,
        }
    }

    /// Whether group `g` closes at `q` on the run from `i`, having opened at
    /// or before `q`.
    pub open spec fn closes_opened(&self, s: Seq<u8>, i: int, q: int, g: int) -> bool {
        &&& self.marks_at(s, i, q, g, false)
        &&& exists|p: int| i <= p <= q && #[trigger] self.marks_at(s, i, p, g, true)
    }

    /// The extent `(p, q)` of group `g` in the match `(i, j)`: `q` is the last
    /// position up to `j` where `g` closes having opened before, and `p` the
    /// last position up to `q` where it opens.
    pub open spec fn extent(&self, s: Seq<u8>, i: int, j: int, g: int, p: int, q: int) -> bool {
        &&& i <= p <= q <= j
        &&& self.marks_at(s, i, q, g, false)
        &&& self.marks_at(s, i, p, g, true)
        &&& forall|b: int| q < b <= j ==> !#[trigger] self.closes_opened(s, i, b, g)
        &&& forall|a: int| p < a <= q ==> !#[trigger] self.marks_at(s, i, a, g, true)
    }

    proof fn lemma_run_bounded(&self, s: Seq<u8>, i: int, k: nat)
        requires
            self.wf(),
            0 <= i,
            i + k <= s.len(),
        ensures
            self.run(s, i, k) matches Some(st) ==> st < self.nodes.len(),
        decreases k,
    {
        if k > 0 {
            self.lemma_run_bounded(s, i, (k - 1) as nat);
            if let Some(st) = self.run(s, i, (k - 1) as nat) {
                assert(self.nodes[st as int][s[i + k - 1] as int] matches Some(j) ==> j
                    < self.nodes.len());
            }
        }
    }

    proof fn lemma_run_stays_trapped(&self, s: Seq<u8>, i: int, k: nat, l: nat)
        requires
            k <= l,
            self.run(s, i, k) is None,
        ensures
            self.run(s, i, l) is None,
        decreases l,
    {
        if l > k {
            self.lemma_run_stays_trapped(s, i, k, (l - 1) as nat);
        }
    }

    /// The leftmost match, and the longest one from there: the least start
    /// `i` from which some prefix of the rest of `s` leads to a state that
    /// closes group 0, and the greatest end `j` of such a prefix.
    pub fn find(&self, s: &[u8]) -> (r: Option<(usize, usize)>)
        requires
            self.wf(),
        ensures
            match r {
                Some((i, j)) => {
                    &&& self.matches_at(s@, i as int, j as int)
                    &&& forall|a: int, b: int| 0 <= a < i ==> !self.matches_at(s@, a, b)
                    &&& forall|b: int| j < b ==> !self.matches_at(s@, i as int, b)
                },
                None => forall|a: int, b: int| !self.matches_at(s@, a, b),
            },
    {
        let mut i: usize = 0;
        loop
            invariant
                self.wf(),
                i <= s.len(),
                forall|a: int, b: int| 0 <= a < i ==> !self.matches_at(s@, a, b),
            ensures
                forall|a: int, b: int| 0 <= a <= s.len() ==> !self.matches_at(s@, a, b),
            decreases s.len() - i,
        {
            let mut st: usize = 0;
            let mut best: Option<usize> = if self.tail[0].len() > 0 && self.tail[0][0] {
                Some(i)
            } else {
                None
            };
            let mut k: usize = i;
            proof {
                assert(self.run(s@, i as int, 0) == Some(0usize));
            }
            loop
                invariant
                    self.wf(),
                    i <= k <= s.len(),
                    self.run(s@, i as int, (k - i) as nat) == Some(st),
                    st < self.nodes.len(),
                    match best {
                        Some(j) => i <= j <= k && self.matches_at(s@, i as int, j as int) && forall|
                            b: int,
                        | j < b <= k ==> !self.matches_at(s@, i as int, b),
                        None => forall|b: int| b <= k ==> !self.matches_at(s@, i as int, b),
                    },
                ensures
                    i <= k <= s.len(),
                    match best {
                        Some(j) => i <= j <= k && self.matches_at(s@, i as int, j as int) && forall|
                            b: int,
                        | j < b ==> !self.matches_at(s@, i as int, b),
                        None => forall|b: int| !self.matches_at(s@, i as int, b),
                    },
                decreases s.len() - k,
            {
                if k == s.len() {
                    proof {
                        assert forall|b: int| k < b implies !self.matches_at(s@, i as int, b) by {}
                    }
                    break;
                }
                let next = self.nodes[st][s[k] as usize];
                match next {
                    None => {
                        proof {
                            assert(self.run(s@, i as int, (k + 1 - i) as nat) is None);
                            assert forall|b: int| k < b implies !self.matches_at(s@, i as int, b) by {
                                if b <= s.len() {
                                    self.lemma_run_stays_trapped(
                                        s@,
                                        i as int,
                                        (k + 1 - i) as nat,
                                        (b - i) as nat,
                                    );
                                }
                            }
                        }
                        break;
                    },
                    Some(nx) => {
                        proof {
                            assert(self.run(s@, i as int, (k + 1 - i) as nat) == Some(nx));
                        }
                        st = nx;
                        k = k + 1;
                        if self.tail[st].len() > 0 && self.tail[st][0] {
                            best = Some(k);
                        }
                    },
                }
            }
            if let Some(j) = best {
                return Some((i, j));
            }
            if i == s.len() {
                break;
            }
            i = i + 1;
        }
        None
    }
}


impl Regex {
    /// The groups of the leftmost, longest match: for each group (as many
    /// as state 0 has head flags), its [`extent`](Regex::extent) in the
    /// match, or none when it does not close after opening within it.
    pub fn captures(&self, s: &[u8]) -> (r: Option<Vec<Option<(usize, usize)>>>)
        requires
            self.wf(),
        ensures
            match r {
                None => forall|a: int, b: int| !self.matches_at(s@, a, b),
                Some(v) => exists|i: int, j: int|
                    {
                        &&& #[trigger] self.leftmost_longest(s@, i, j)
                        &&& v.len() == self.head[0].len()
                        &&& forall|g: int|
                            0 <= g < v.len() ==> match #[trigger] v[g] {
                                Some((p, q)) => self.extent(s@, i, j, g, p as int, q as int),
                                None => forall|b: int| i <= b <= j ==> !self.closes_opened(s@, i, b, g),
                            }
                    },
            },
    {
        let (i, j) = match self.find(s) {
            None => {
                return None;
            },
            Some(m) => m,
        };
        let mut sts: Vec<usize> = Vec::new();
        sts.push(0);
        let mut k: usize = i;
        proof {
            assert(self.run(s@, i as int, 0) == Some(0usize));
        }
        while k < j
            invariant
                self.wf(),
                self.matches_at(s@, i as int, j as int),
                i <= k <= j,
                j <= s.len(),
                sts.len() == k - i + 1,
                forall|m: int|
                    0 <= m < sts.len() ==> self.run(s@, i as int, m as nat) == Some(#[trigger] sts[m])
                        && sts[m] < self.nodes.len(),
            decreases j - k,
        {
            let st = sts[k - i];
            match self.nodes[st][s[k] as usize] {
                None => {
                    proof {
                        assert(self.run(s@, i as int, (k + 1 - i) as nat) is None);
                        self.lemma_run_stays_trapped(s@, i as int, (k + 1 - i) as nat, (j - i) as nat);
                        assert(false);
                    }
                    return None;
                },
                Some(nx) => {
                    proof {
                        assert(self.run(s@, i as int, (k + 1 - i) as nat) == Some(nx));
                        assert(self.nodes[st as int][s[k as int] as int] matches Some(x) ==> x < self.nodes.len());
                    }
                    sts.push(nx);
                    k = k + 1;
                },
            }
        }
        let groups = self.head[0].len();
        let mut v: Vec<Option<(usize, usize)>> = Vec::new();
        let mut g: usize = 0;
        while g < groups
            invariant
                self.wf(),
                self.leftmost_longest(s@, i as int, j as int),
                i <= j <= s.len(),
                sts.len() == j - i + 1,
                forall|m: int|
                    0 <= m < sts.len() ==> self.run(s@, i as int, m as nat) == Some(#[trigger] sts[m])
                        && sts[m] < self.nodes.len(),
                groups == self.head[0].len(),
                g <= groups,
                v.len() == g,
                forall|h: int|
                    0 <= h < g ==> match #[trigger] v[h] {
                        Some((p, q)) => self.extent(s@, i as int, j as int, h, p as int, q as int),
                        None => forall|b: int| i <= b <= j ==> !self.closes_opened(s@, i as int, b, h),
                    },
            decreases groups - g,
        {
            let found = self.extent_of(s, i, j, &sts, g);
            v.push(found);
            proof {
                assert(v[g as int] == found);
            }
            g = g + 1;
        }
        proof {
            assert(self.leftmost_longest(s@, i as int, j as int));
        }
        Some(v)
    }

    fn extent_of(&self, s: &[u8], i: usize, j: usize, sts: &Vec<usize>, g: usize) -> (r: Option<
        (usize, usize),
    >)
        requires
            self.wf(),
            i <= j <= s.len(),
            sts.len() == j - i + 1,
            forall|m: int|
                0 <= m < sts.len() ==> self.run(s@, i as int, m as nat) == Some(#[trigger] sts[m])
                    && sts[m] < self.nodes.len(),
        ensures
            match r {
                Some((p, q)) => self.extent(s@, i as int, j as int, g as int, p as int, q as int),
                None => forall|b: int| i <= b <= j ==> !self.closes_opened(s@, i as int, b, g as int),
            },
    {
        let mut qo: usize = sts.len();
        while qo > 0
            invariant
                self.wf(),
                i <= j <= s.len(),
                sts.len() == j - i + 1,
                forall|m: int|
                    0 <= m < sts.len() ==> self.run(s@, i as int, m as nat) == Some(#[trigger] sts[m])
                        && sts[m] < self.nodes.len(),
                qo <= sts.len(),
                forall|b: int| i + qo <= b <= j ==> !self.closes_opened(s@, i as int, b, g as int),
            decreases qo,
        {
            let o = qo - 1;
            let stq = sts[o];
            proof {
                assert(self.run(s@, i as int, o as nat) == Some(stq));
                assert(((i + o) - i) as nat == o as nat);
            }
            if g < self.tail[stq].len() && self.tail[stq][g] {
                let mut po: usize = o + 1;
                while po > 0
                    invariant
                        self.wf(),
                        i <= j <= s.len(),
                        sts.len() == j - i + 1,
                        forall|m: int|
                            0 <= m < sts.len() ==> self.run(s@, i as int, m as nat) == Some(#[trigger] sts[m])
                                && sts[m] < self.nodes.len(),
                        o < sts.len(),
                        po <= o + 1,
                        self.marks_at(s@, i as int, (i + o) as int, g as int, false),
                        forall|b: int| i + o < b <= j ==> !self.closes_opened(s@, i as int, b, g as int),
                        forall|a: int| i + po <= a <= i + o ==> !self.marks_at(s@, i as int, a, g as int, true),
                    decreases po,
                {
                    let pp = po - 1;
                    let stp = sts[pp];
                    proof {
                        assert(self.run(s@, i as int, pp as nat) == Some(stp));
                        assert(((i + pp) - i) as nat == pp as nat);
                    }
                    if g < self.head[stp].len() && self.head[stp][g] {
                        return Some((i + pp, i + o));
                    }
                    po = pp;
                }
                proof {
                    assert(!self.closes_opened(s@, i as int, (i + o) as int, g as int));
                }
            }
            qo = o;
        }
        None
    }
}

impl Regex {
    /// The transitions of state `st` as a map from byte to next state.
    pub fn transitions(&self, st: usize) -> (r: HashMap<u8, usize>)
        requires
            self.wf(),
            st < self.nodes.len(),
        ensures
            forall|c: u8| #[trigger] r@.contains_key(c) <==> self.nodes[st as int][c as int] is Some,
            forall|c: u8| r@.contains_key(c) ==> Some(#[trigger] r@[c]) == self.nodes[st as int][c as int],
    {
        let mut r: HashMap<u8, usize> = HashMap::new();
        let mut c: u16 = 0;
        while c < 256
            invariant
                self.wf(),
                st < self.nodes.len(),
                c <= 256,
                forall|d: u8| #[trigger] r@.contains_key(d) <==> (d < c && self.nodes[st as int][d as int] is Some),
                forall|d: u8| r@.contains_key(d) ==> Some(#[trigger] r@[d]) == self.nodes[st as int][d as int],
            decreases 256 - c,
        {
            assert(self.nodes[st as int].len() == 256);
            if let Some(t) = self.nodes[st][c as usize] {
                r.insert(c as u8, t);
            }
            c = c + 1;
        }
        r
    }

    /// The groups flagged in `flags`, as a set.
    fn flag_set(flags: &Vec<bool>) -> (r: HashSet<usize>)
        ensures
            forall|g: usize| #[trigger] r@.contains(g) <==> (g < flags.len() && flags[g as int]),
    {
        let mut r: HashSet<usize> = HashSet::new();
        let mut g: usize = 0;
        while g < flags.len()
            invariant
                g <= flags.len(),
                forall|h: usize| #[trigger] r@.contains(h) <==> (h < g && flags[h as int]),
            decreases flags.len() - g,
        {
            if flags[g] {
                r.insert(g);
            }
            g = g + 1;
        }
        r
    }

    /// The groups that open at state `st`.
    pub fn heads(&self, st: usize) -> (r: HashSet<usize>)
        requires
            st < self.head.len(),
        ensures
            forall|g: usize| #[trigger] r@.contains(g) <==> (g < self.head[st as int].len()
                && self.head[st as int][g as int]),
    {
        Regex::flag_set(&self.head[st])
    }

    /// The groups that close at state `st`.
    pub fn tails(&self, st: usize) -> (r: HashSet<usize>)
        requires
            st < self.tail.len(),
        ensures
            forall|g: usize| #[trigger] r@.contains(g) <==> (g < self.tail[st as int].len()
                && self.tail[st as int][g as int]),
    {
        Regex::flag_set(&self.tail[st])
    }
}

/// Compiles a pattern under `config`: checks the configuration, then lexes,
/// builds the NFA, folds its epsilon edges and makes it deterministic.
/// With a valid configuration the result is a regex exactly when
/// [`thompson`] builds an NFA for the pattern, and otherwise the error that
/// [`thompson`] stops at.
pub fn compile(s: &[u8], config: Config) -> (r: Result<Regex, Error>)
    ensures
        !config.valid() ==> r == Err::<Regex, Error>(Error::Config),
        config.valid() ==> match r {
            Ok(re) => re.wf(),
            Err(e) => is_build_error(e) || e == Error::Overflow,
        },
        config.valid() ==> match thompson(config, s@, 0, None) {
            Ok(t) => r matches Ok(re) && exists|nfa: NFA, dfa: DFA|
                {
                    &&& nfa.wf()
                    &&& forall|u: NFAUncooked|
                        u.arena() == t.arena && u.begin == t.begin ==> #[trigger] nfa.cooks(u)
                    &&& #[trigger] dfa.built_from(nfa)
                    &&& dfa.nodes@ == re.nodes@
                    &&& dfa.head@ == re.head@
                    &&& dfa.tail@ == re.tail@
                },
            Err(e) => r == Err::<Regex, Error>(e),
        },
{
    if !config.is_valid() {
        return Err(Error::Config);
    }
    let nfa = build_nfa(Lexer::new(s, config))?;
    let ghost n = nfa;
    let dfa = build_dfa(nfa);
    let ghost d = dfa;
    let re = Regex { nodes: dfa.nodes, head: dfa.head, tail: dfa.tail };
    proof {
        assert(d.built_from(n));
        assert forall|i: int, c: int|
            0 <= i < re.nodes.len() && 0 <= c < 256 implies (#[trigger] re.nodes[i][c] matches Some(
            j,
        ) ==> j < re.nodes.len()) by {
            assert(d.entry_ok(n, i, c));
        }
    }
    Ok(re)
}

} // verus!
