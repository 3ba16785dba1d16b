use vstd::prelude::*;

verus! {

/// Whether bit `i` of the word `w` is set.
pub open spec fn bit(w: u128, i: u128) -> bool {
    (w >> i) & 1 == 1
}

proof fn lemma_bit_or(x: u128, y: u128, i: u128)
    requires
        i < 128,
    ensures
        bit(x | y, i) == (bit(x, i) || bit(y, i)),
{
    assert(((x | y) >> i) & 1 == 1 <==> ((x >> i) & 1 == 1 || (y >> i) & 1 == 1)) by (bit_vector)
        requires
            i < 128,
    ;
}

proof fn lemma_bit_and(x: u128, y: u128, i: u128)
    requires
        i < 128,
    ensures
        bit(x & y, i) == (bit(x, i) && bit(y, i)),
{
    assert(((x & y) >> i) & 1 == 1 <==> ((x >> i) & 1 == 1 && (y >> i) & 1 == 1)) by (bit_vector)
        requires
            i < 128,
    ;
}

proof fn lemma_bit_not(x: u128, i: u128)
    requires
        i < 128,
    ensures
        bit(x ^ u128::MAX, i) == !bit(x, i),
{
    assert(((x ^ 0xffff_ffff_ffff_ffff_ffff_ffff_ffff_ffffu128) >> i) & 1 == 1 <==> !((x >> i) & 1
        == 1)) by (bit_vector)
        requires
            i < 128,
    ;
}

proof fn lemma_bit_single(c: u128, i: u128)
    requires
        c < 128,
        i < 128,
    ensures
        bit(1u128 << c, i) == (i == c),
{
    assert((((1u128 << c) >> i) & 1 == 1) <==> i == c) by (bit_vector)
        requires
            c < 128,
            i < 128,
    ;
}

proof fn lemma_bit_zero(i: u128)
    ensures
        !bit(0, i),
{
    assert(!((0u128 >> i) & 1 == 1)) by (bit_vector);
}

proof fn lemma_bit_full(i: u128)
    requires
        i < 128,
    ensures
        bit(u128::MAX, i),
{
    assert((0xffff_ffff_ffff_ffff_ffff_ffff_ffff_ffffu128 >> i) & 1 == 1) by (bit_vector)
        requires
            i < 128,
    ;
}

/// The low `n` bits of `w`.
spec fn low(w: u128, n: u128) -> u128 {
    w & (((1u128 << n) - 1) as u128)
}

proof fn lemma_low_step(x: u128, n: u128)
    requires
        n < 127,
    ensures
        low(x, (n + 1) as u128) == (low(x, n) | (((x >> n) & 1) << n)),
{
    assert((x & (((1u128 << ((n + 1) as u128)) - 1) as u128)) == ((x & (((1u128 << n) - 1)
        as u128)) | (((x >> n) & 1) << n))) by (bit_vector)
        requires
            n < 127,
    ;
}

proof fn lemma_low_top(x: u128)
    ensures
        x == (low(x, 127) | (((x >> 127u128) & 1) << 127u128)),
{
    assert(x == ((x & (((1u128 << 127u128) - 1) as u128)) | (((x >> 127u128) & 1) << 127u128)))
        by (bit_vector);
}

proof fn lemma_low_zero(x: u128)
    ensures
        low(x, 0) == 0,
{
    assert((x & (((1u128 << 0u128) - 1) as u128)) == 0) by (bit_vector);
}

/// Two words that agree on their low `n` bits have the same low `n` bits.
proof fn lemma_low_eq(x: u128, y: u128, n: u128)
    requires
        n <= 127,
        forall|i: u128| i < 128 ==> bit(x, i) == bit(y, i),
    ensures
        low(x, n) == low(y, n),
    decreases n,
{
    if n == 0 {
        lemma_low_zero(x);
        lemma_low_zero(y);
    } else {
        let m = (n - 1) as u128;
        lemma_low_eq(x, y, m);
        lemma_low_step(x, m);
        lemma_low_step(y, m);
        assert(bit(x, m) == bit(y, m));
        assert((x >> m) & 1 == (y >> m) & 1) by (bit_vector)
            requires
                ((x >> m) & 1 == 1) == ((y >> m) & 1 == 1),
        ;
    }
}

/// Two words that agree on every bit are equal.
proof fn lemma_bits_ext(x: u128, y: u128)
    requires
        forall|i: u128| i < 128 ==> bit(x, i) == bit(y, i),
    ensures
        x == y,
{
    lemma_low_eq(x, y, 127);
    lemma_low_top(x);
    lemma_low_top(y);
    assert(bit(x, 127) == bit(y, 127));
    assert((x >> 127u128) & 1 == (y >> 127u128) & 1) by (bit_vector)
        requires
            ((x >> 127u128) & 1 == 1) == ((y >> 127u128) & 1 == 1),
    ;
}

/// A set of byte values, one bit for each of the 256 bytes: `lo` holds the
/// bytes below 128, `hi` the others.
#[derive(Clone, Copy, Debug, PartialEq, Eq, Structural)]
pub struct Charset {
    lo: u128,
    hi: u128,
}

impl View for Charset {
    type V = Set<u8>;

    open spec fn view(&self) -> Set<u8> {
        Set::new(|c: u8| self.has(c))
    }
}

impl Charset {
    /// Whether byte `c` is a member, read from the bits.
    pub closed spec fn has(&self, c: u8) -> bool {
        if c < 128 {
            bit(self.lo, c as u128)
        } else {
            bit(self.hi, (c - 128) as u128)
        }
    }

    /// Two charsets with the same members are the same value.
    pub proof fn lemma_ext(a: Charset, b: Charset)
        requires
            a@ == b@,
        ensures
            a == b,
    {
        assert forall|i: u128| i < 128 implies bit(a.lo, i) == bit(b.lo, i) by {
            let c = i as u8;
            assert(a@.contains(c) == b@.contains(c));
            assert(a@.contains(c) == a.has(c));
            assert(b@.contains(c) == b.has(c));
            assert(c as u128 == i);
        }
        assert forall|i: u128| i < 128 implies bit(a.hi, i) == bit(b.hi, i) by {
            let c = (i + 128) as u8;
            assert(a@.contains(c) == b@.contains(c));
            assert(a@.contains(c) == a.has(c));
            assert(b@.contains(c) == b.has(c));
            assert((c - 128) as u128 == i);
        }
        lemma_bits_ext(a.lo, b.lo);
        lemma_bits_ext(a.hi, b.hi);
    }

    /// The empty set.
    pub fn new() -> (r: Charset)
        ensures
            r@ == Set::<u8>::empty(),
    {
        let r = Charset { lo: 0, hi: 0 };
        proof {
            assert forall|c: u8| !r.has(c) by {
                lemma_bit_zero(c as u128);
                lemma_bit_zero((c - 128) as u128);
            }
            assert(r@ =~= Set::<u8>::empty());
        }
        r
    }

    /// The set of all 256 bytes.
    pub fn all() -> (r: Charset)
        ensures
            r@ == Set::new(|c: u8| true),
    {
        let r = Charset { lo: u128::MAX, hi: u128::MAX };
        proof {
            assert forall|c: u8| r.has(c) by {
                if c < 128 {
                    lemma_bit_full(c as u128);
                } else {
                    lemma_bit_full((c - 128) as u128);
                }
            }
            assert(r@ =~= Set::new(|c: u8| true));
        }
        r
    }

    /// The set holding `c` alone.
    pub fn char(c: u8) -> (r: Charset)
        ensures
            r@ == set![c],
    {
        let r = if c < 128 {
            Charset { lo: 1u128 << c, hi: 0 }
        } else {
            Charset { lo: 0, hi: 1u128 << (c - 128) }
        };
        proof {
            assert forall|d: u8| r.has(d) == (d == c) by {
                lemma_bit_zero(d as u128);
                lemma_bit_zero((d - 128) as u128);
                if c < 128 {
                    if d < 128 {
                        lemma_bit_single(c as u128, d as u128);
                    }
                } else {
                    if d >= 128 {
                        lemma_bit_single((c - 128) as u128, (d - 128) as u128);
                    }
                }
            }
            assert(r@ =~= set![c]);
        }
        r
    }

    /// Whether `c` is a member.
    pub fn contains(&self, c: u8) -> (r: bool)
        ensures
            r == self@.contains(c),
    {
        if c < 128 {
            (self.lo >> c) & 1 == 1
        } else {
            (self.hi >> (c - 128)) & 1 == 1
        }
    }

    /// The members of either set.
    pub fn union(&self, o: &Charset) -> (r: Charset)
        ensures
            r@ == self@.union(o@),
    {
        let r = Charset { lo: self.lo | o.lo, hi: self.hi | o.hi };
        proof {
            assert forall|c: u8| r.has(c) == (self.has(c) || o.has(c)) by {
                if c < 128 {
                    lemma_bit_or(self.lo, o.lo, c as u128);
                } else {
                    lemma_bit_or(self.hi, o.hi, (c - 128) as u128);
                }
            }
            assert(r@ =~= self@.union(o@));
        }
        r
    }

    /// The members of both sets.
    pub fn intersect(&self, o: &Charset) -> (r: Charset)
        ensures
            r@ == self@.intersect(o@),
    {
        let r = Charset { lo: self.lo & o.lo, hi: self.hi & o.hi };
        proof {
            assert forall|c: u8| r.has(c) == (self.has(c) && o.has(c)) by {
                if c < 128 {
                    lemma_bit_and(self.lo, o.lo, c as u128);
                } else {
                    lemma_bit_and(self.hi, o.hi, (c - 128) as u128);
                }
            }
            assert(r@ =~= self@.intersect(o@));
        }
        r
    }

    /// The complement: every byte that is not a member.
    pub fn inv(self) -> (r: Charset)
        ensures
            r@ == self@.complement(),
    {
        let r = Charset { lo: self.lo ^ u128::MAX, hi: self.hi ^ u128::MAX };
        proof {
            assert forall|c: u8| r.has(c) == !self.has(c) by {
                if c < 128 {
                    lemma_bit_not(self.lo, c as u128);
                } else {
                    lemma_bit_not(self.hi, (c - 128) as u128);
                }
            }
            assert(r@ =~= self@.complement());
        }
        r
    }

    /// Adds the members of `s`.
    pub fn add(&mut self, s: &Charset)
        ensures
            final(self)@ == old(self)@.union(s@),
    {
        *self = self.union(s);
    }

    /// Adds the byte `c`.
    pub fn add_char(&mut self, c: u8)
        ensures
            final(self)@ == old(self)@.insert(c),
    {
        let s = Charset::char(c);
        *self = self.union(&s);
        proof {
            assert(final(self)@ =~= old(self)@.insert(c));
        }
    }

    /// Adds every byte from `a` to `b`, both included.
    pub fn add_range(&mut self, a: u8, b: u8)
        requires
            a <= b,
        ensures
            final(self)@ == old(self)@.union(Set::new(|c: u8| a <= c <= b)),
    {
        let ghost start = self@;
        let mut c: u16 = a as u16;
        while c <= b as u16
            invariant
                a <= c <= b as u16 + 1,
                self@ == start.union(Set::new(|d: u8| a <= d < c)),
            decreases b as u16 + 1 - c,
        {
            let ghost before = self@;
            self.add_char(c as u8);
            proof {
                assert(self@ =~= start.union(Set::new(|d: u8| a <= d < c + 1)));
            }
            c = c + 1;
        }
        proof {
            assert(self@ =~= start.union(Set::new(|d: u8| a <= d <= b)));
        }
    }

    /// The bytes from `a` to `b`, both included; empty when `a > b`.
    pub fn range(a: u8, b: u8) -> (r: Charset)
        ensures
            r@ == Set::new(|c: u8| a <= c <= b),
    {
        let mut r = Charset::new();
        if a <= b {
            r.add_range(a, b);
        }
        proof {
            assert(r@ =~= Set::new(|c: u8| a <= c <= b));
        }
        r
    }

    /// Whether the set has no member.
    pub fn empty(&self) -> (r: bool)
        ensures
            r == (self@ == Set::<u8>::empty()),
    {
        let z = Charset { lo: 0, hi: 0 };
        proof {
            assert forall|c: u8| !z.has(c) by {
                lemma_bit_zero(c as u128);
                lemma_bit_zero((c - 128) as u128);
            }
            assert(z@ =~= Set::<u8>::empty());
            if self@ == Set::<u8>::empty() {
                Charset::lemma_ext(*self, z);
            }
        }
        self.lo == 0 && self.hi == 0
    }

    /// Whether the set has exactly one member.
    pub fn ischar(&self) -> (r: bool)
        ensures
            r == exists|c: u8| self@ == set![c],
    {
        let mut found: Option<u8> = None;
        let mut i: u16 = 0;
        while i < 256
            invariant
                i <= 256,
                found is None ==> forall|d: u8| d < i ==> !self@.contains(d),
                found matches Some(f) ==> f < i && self@.contains(f) && forall|d: u8|
                    d < i && d != f ==> !self@.contains(d),
            decreases 256 - i,
        {
            if self.contains(i as u8) {
                if let Some(f) = found {
                    proof {
                        assert forall|c: u8| self@ != set![c] by {
                            if self@ == set![c] {
                                assert(set![c].contains(f));
                                assert(set![c].contains(i as u8));
                            }
                        }
                    }
                    return false;
                }
                found = Some(i as u8);
            }
            i = i + 1;
        }
        match found {
            Some(f) => {
                proof {
                    assert(self@ =~= set![f]);
                }
                true
            },
            None => {
                proof {
                    assert forall|c: u8| self@ != set![c] by {
                        if self@ == set![c] {
                            assert(set![c].contains(c));
                        }
                    }
                }
                false
            },
        }
    }

    /// The members in ascending order.
    pub fn members(&self) -> (r: Vec<u8>)
        ensures
            forall|i: int, j: int| 0 <= i < j < r.len() ==> r[i] < r[j],
            forall|c: u8| self@.contains(c) <==> r@.contains(c),
    {
        let mut r: Vec<u8> = Vec::new();
        let mut i: u16 = 0;
        while i < 256
            invariant
                i <= 256,
                forall|k: int, j: int| 0 <= k < j < r.len() ==> r[k] < r[j],
                forall|k: int| 0 <= k < r.len() ==> r[k] < i,
                forall|c: u8| (c < i && self@.contains(c)) <==> r@.contains(c),
            decreases 256 - i,
        {
            if self.contains(i as u8) {
                let ghost prev = r@;
                r.push(i as u8);
                proof {
                    assert forall|c: u8| (c < i + 1 && self@.contains(c)) <==> r@.contains(c) by {
                        if r@.contains(c) && c != i as u8 {
                            let k = choose|k: int| 0 <= k < r.len() && r[k] == c;
                            assert(k < prev.len());
                            assert(prev[k] == c);
                            assert(prev.contains(c));
                        }
                        if c < i && self@.contains(c) {
                            assert(prev.contains(c));
                            let k = choose|k: int| 0 <= k < prev.len() && prev[k] == c;
                            assert(r[k] == c);
                        }
                        if c == i as u8 {
                            assert(r[r.len() - 1] == c);
                        }
                    }
                }
            }
            i = i + 1;
        }
        r
    }

    /// The members below 128 as the bits of one word: bit `c` is set when
    /// `c` is a member.
    pub fn low_bits(&self) -> (r: u128)
        ensures
            forall|c: u8| c < 128 ==> (bit(r, c as u128) <==> self@.contains(c)),
    {
        self.lo
    }

    /// A cursor over the members, forward from the lowest and backward from
    /// the highest.
    pub fn iter(&self) -> (r: CharsetIter)
        ensures
            r.wf(),
            r.set() == self@,
            r.front() == 0,
            r.back() == 256,
    {
        CharsetIter { set: *self, fwd: 0, bwd: 256 }
    }

    /// The set written as a class: `[`, its members in ascending order as
    /// [`escape_text`] writes them, `]`.
    pub fn pattern(&self) -> (r: Vec<u8>)
        ensures
            r@ == seq![0x5bu8] + members_text(self@, 256) + seq![0x5du8],
    {
        let mut r: Vec<u8> = Vec::new();
        r.push(0x5b);
        let mut c: u16 = 0;
        while c < 256
            invariant
                c <= 256,
                r@ == seq![0x5bu8] + members_text(self@, c as nat),
            decreases 256 - c,
        {
            let b = c as u8;
            let ghost before = r@;
            if self.contains(b) {
                if b == 0x2d || b == 0x5d {
                    r.push(0x5c);
                    r.push(b);
                } else if b == 0x0a {
                    r.push(0x5c);
                    r.push(0x6e);
                } else if b == 0x09 {
                    r.push(0x5c);
                    r.push(0x74);
                } else if 32 <= b && b <= 126 {
                    r.push(b);
                } else {
                    let hi = b / 16;
                    let lo = b % 16;
                    r.push(0x5c);
                    r.push(0x78);
                    r.push(if hi < 10 {
                        0x30 + hi
                    } else {
                        0x61 + hi - 10
                    });
                    r.push(if lo < 10 {
                        0x30 + lo
                    } else {
                        0x61 + lo - 10
                    });
                }
                proof {
                    assert(r@ =~= before + escape_text(b));
                }
            }
            proof {
                assert((c as nat) as u8 == b);
                assert(members_text(self@, (c + 1) as nat) == members_text(self@, c as nat) + if self@.contains(b) {
                    escape_text(b)
                } else {
                    Seq::empty()
                });
                assert(r@ =~= seq![0x5bu8] + members_text(self@, (c + 1) as nat));
            }
            c = c + 1;
        }
        r.push(0x5d);
        proof {
            assert(r@ =~= seq![0x5bu8] + members_text(self@, 256) + seq![0x5du8]);
        }
        r
    }

    /// `A ∪ A = A`.
    pub proof fn lemma_union_idempotent(a: Charset, r: Charset)
        requires
            r@ == a@.union(a@),
        ensures
            r == a,
    {
        assert(r@ =~= a@);
        Charset::lemma_ext(r, a);
    }

    /// `A ∩ ¬A = ∅`.
    pub proof fn lemma_intersect_complement(a: Charset, n: Charset, r: Charset)
        requires
            n@ == a@.complement(),
            r@ == a@.intersect(n@),
        ensures
            r@ == Set::<u8>::empty(),
    {
        assert(r@ =~= Set::<u8>::empty());
    }

    /// `¬¬A = A`.
    pub proof fn lemma_double_complement(a: Charset, n: Charset, r: Charset)
        requires
            n@ == a@.complement(),
            r@ == n@.complement(),
        ensures
            r == a,
    {
        assert(r@ =~= a@);
        Charset::lemma_ext(r, a);
    }

    /// `A ∪ B = B ∪ A`.
    pub proof fn lemma_union_commutative(a: Charset, b: Charset, r: Charset, s: Charset)
        requires
            r@ == a@.union(b@),
            s@ == b@.union(a@),
        ensures
            r == s,
    {
        assert(r@ =~= s@);
        Charset::lemma_ext(r, s);
    }

    /// Iterating a charset from the start hands out its members in strictly
    /// ascending order, each once; two charsets are equal exactly when they
    /// iterate alike.
    pub proof fn lemma_iteration_order(a: Charset, b: Charset)
        ensures
            forall|i: int, j: int|
                0 <= i < j < iteration(a@, 0).len() ==> iteration(a@, 0)[i] < iteration(a@, 0)[j],
            iteration(a@, 0).to_set() == a@,
            (a == b) <==> iteration(a@, 0) == iteration(b@, 0),
    {
        lemma_iteration(a@, 0);
        lemma_iteration(b@, 0);
        assert(iteration(a@, 0).to_set() =~= a@);
        assert(iteration(b@, 0).to_set() =~= b@);
        if iteration(a@, 0) == iteration(b@, 0) {
            Charset::lemma_ext(a, b);
        }
    }

    /// Two charsets are equal exactly when they have the same members.
    pub proof fn lemma_eq_iff_same_members(a: Charset, b: Charset)
        ensures
            (a == b) <==> (a@ == b@),
    {
        if a@ == b@ {
            Charset::lemma_ext(a, b);
        }
    }
}

/// The hexadecimal digit for `d < 16`, in lower case.
pub open spec fn hex_digit(d: u8) -> u8 {
    if d < 10 {
        (0x30 + d) as u8
    } else {
        (0x61 + d - 10) as u8
    }
}

/// How byte `c` is written inside a class: `-`, `]`, newline and tab
/// escaped, other printable ASCII as is, anything else as `\xhh`.
pub open spec fn escape_text(c: u8) -> Seq<u8> {
    if c == 0x2d || c == 0x5d {
        seq![0x5cu8, c]
    } else if c == 0x0a {
        seq![0x5cu8, 0x6eu8]
    } else if c == 0x09 {
        seq![0x5cu8, 0x74u8]
    } else if 32 <= c <= 126 {
        seq![c]
    } else {
        seq![0x5cu8, 0x78u8, hex_digit(c / 16), hex_digit(c % 16)]
    }
}

/// The members of `s` below `n`, each written as [`escape_text`] says, in
/// ascending order.
pub open spec fn members_text(s: Set<u8>, n: nat) -> Seq<u8>
    decreases n,
{
    if n == 0 {
        Seq::empty()
    } else {
        let m = (n - 1) as nat;
        members_text(s, m) + if m < 256 && s.contains(m as u8) {
            escape_text(m as u8)
        } else {
            Seq::empty()
        }
    }
}

/// The least member of `s` from `from` on, if any.
pub open spec fn first_from(s: Set<u8>, from: nat) -> Option<u8>
    decreases 256 - from,
{
    if from >= 256 {
        None
    } else if s.contains(from as u8) {
        Some(from as u8)
    } else {
        first_from(s, from + 1)
    }
}

/// The members of `s` from `from` on, as successive calls of
/// [`CharsetIter::next`] hand them out.
pub open spec fn iteration(s: Set<u8>, from: nat) -> Seq<u8>
    decreases 256 - from,
{
    match first_from(s, from) {
        Some(c) => if from <= c {
            seq![c] + iteration(s, c as nat + 1)
        } else {
            Seq::empty()
        },
        None => Seq::empty(),
    }
}

proof fn lemma_first_from(s: Set<u8>, from: nat)
    ensures
        match first_from(s, from) {
            Some(c) => from <= c && s.contains(c) && forall|d: u8| from <= d < c ==> !s.contains(d),
            None => forall|d: u8| from <= d ==> !s.contains(d),
        },
    decreases 256 - from,
{
    if from < 256 && !s.contains(from as u8) {
        lemma_first_from(s, from + 1);
    }
}

/// The iteration from `from` on is strictly ascending and holds exactly the
/// members from `from` on.
pub proof fn lemma_iteration(s: Set<u8>, from: nat)
    ensures
        forall|i: int, j: int|
            0 <= i < j < iteration(s, from).len() ==> iteration(s, from)[i] < iteration(s, from)[j],
        forall|c: u8| (from <= c && s.contains(c)) <==> iteration(s, from).contains(c),
        forall|k: int| 0 <= k < iteration(s, from).len() ==> from <= #[trigger] iteration(s, from)[k],
    decreases 256 - from,
{
    lemma_first_from(s, from);
    match first_from(s, from) {
        Some(c) => {
            lemma_iteration(s, c as nat + 1);
            let rest = iteration(s, c as nat + 1);
            let it = iteration(s, from);
            assert(it == seq![c] + rest);
            assert forall|k: int| 0 <= k < it.len() implies from <= #[trigger] it[k] by {
                if k > 0 {
                    assert(it[k] == rest[k - 1]);
                }
            }
            assert forall|i: int, j: int| 0 <= i < j < it.len() implies it[i] < it[j] by {
                assert(it[j] == rest[j - 1]);
                if i == 0 {
                    assert(c as nat + 1 <= rest[j - 1]);
                } else {
                    assert(it[i] == rest[i - 1]);
                }
            }
            assert forall|d: u8| (from <= d && s.contains(d)) <==> it.contains(d) by {
                if it.contains(d) && d != c {
                    let k = choose|k: int| 0 <= k < it.len() && it[k] == d;
                    assert(k != 0);
                    assert(rest[k - 1] == d);
                    assert(rest.contains(d));
                }
                if from <= d && s.contains(d) && d != c {
                    assert(c < d);
                    assert(rest.contains(d));
                    let k = choose|k: int| 0 <= k < rest.len() && rest[k] == d;
                    assert(it[k + 1] == d);
                }
                if d == c {
                    assert(it[0] == c);
                }
            }
        },
        None => {},
    }
}

/// A cursor over the members of a charset: `fwd` is the next byte to look
/// at going up, `256 - bwd` the number of bytes already passed going down.
pub struct CharsetIter {
    set: Charset,
    fwd: u16,
    bwd: u16,
}

impl CharsetIter {
    pub closed spec fn wf(&self) -> bool {
        self.fwd <= 256 && self.bwd <= 256
    }

    /// The set walked over.
    pub closed spec fn set(&self) -> Set<u8> {
        self.set@
    }

    /// The lowest byte not yet passed going up.
    pub closed spec fn front(&self) -> nat {
        self.fwd as nat
    }

    /// One more than the highest byte not yet passed going down.
    pub closed spec fn back(&self) -> nat {
        self.bwd as nat
    }

    /// The lowest member not yet passed going up.
    pub fn next(&mut self) -> (r: Option<u8>)
        requires
            old(self).wf(),
        ensures
            final(self).wf(),
            final(self).set() == old(self).set(),
            final(self).back() == old(self).back(),
            r == first_from(old(self).set(), old(self).front()),
            match r {
                Some(c) => {
                    &&& old(self).front() <= c
                    &&& old(self).set().contains(c)
                    &&& forall|d: u8| old(self).front() <= d < c ==> !old(self).set().contains(d)
                    &&& final(self).front() == c + 1
                },
                None => {
                    &&& forall|d: u8| old(self).front() <= d ==> !old(self).set().contains(d)
                    &&& final(self).front() == 256
                },
            },
    {
        while self.fwd < 256
            invariant
                self.wf(),
                self.set == old(self).set,
                self.bwd == old(self).bwd,
                old(self).fwd <= self.fwd,
                forall|d: u8| old(self).fwd <= d < self.fwd ==> !self.set@.contains(d),
                first_from(self.set@, old(self).fwd as nat) == first_from(self.set@, self.fwd as nat),
            decreases 256 - self.fwd,
        {
            let c = self.fwd as u8;
            self.fwd = self.fwd + 1;
            if self.set.contains(c) {
                return Some(c);
            }
        }
        None
    }

    /// The highest member not yet passed going down.
    pub fn next_back(&mut self) -> (r: Option<u8>)
        requires
            old(self).wf(),
        ensures
            final(self).wf(),
            final(self).set() == old(self).set(),
            final(self).front() == old(self).front(),
            match r {
                Some(c) => {
                    &&& c < old(self).back()
                    &&& old(self).set().contains(c)
                    &&& forall|d: u8| c < d < old(self).back() ==> !old(self).set().contains(d)
                    &&& final(self).back() == c
                },
                None => {
                    &&& forall|d: u8| d < old(self).back() ==> !old(self).set().contains(d)
                    &&& final(self).back() == 0
                },
            },
    {
        while self.bwd > 0
            invariant
                self.wf(),
                self.set == old(self).set,
                self.fwd == old(self).fwd,
                self.bwd <= old(self).bwd,
                forall|d: u8| self.bwd <= d < old(self).bwd ==> !self.set@.contains(d),
            decreases self.bwd,
        {
            self.bwd = self.bwd - 1;
            let c = self.bwd as u8;
            if self.set.contains(c) {
                return Some(c);
            }
        }
        None
    }
}

} // verus!
