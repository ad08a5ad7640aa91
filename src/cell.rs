//! The candidate set of one grid position: a bitset over the values `0..N*N`.
use vstd::prelude::*;
use crate::bits::{
    bit_of, lemma_bit_clear, lemma_bit_not_and, lemma_bit_or, lemma_bit_and, lemma_bit_single,
    lemma_bit_zero, lemma_low_mask, lemma_ones_below_le, lemma_ones_minus, lemma_ones_two,
    lemma_ones_upto, lemma_ones_zero, lemma_ones_mono, lemma_ones_subset, low_mask, ones, ones_below,
};

verus! {

/// The symbols of the values `0..64`, in order; `'_'` stands for an unknown cell.
pub const SYMBOLS: [char; 64] = [
    '1', '2', '3', '4', '5', '6', '7', '8', '9', 'A', 'B', 'C', 'D', 'E', 'F', 'G',
    'H', 'I', 'J', 'K', 'L', 'M', 'N', 'O', 'P', 'Q', 'R', 'S', 'T', 'U', 'V', 'W',
    'X', 'Y', 'Z', '0', 'Ψ', 'Ω', 'Φ', 'Δ', 'Ξ', 'Γ', 'Π', 'Σ', 'Д', 'Б', 'Џ', 'Ш',
    'Ч', 'ก', 'ข', 'ค', 'ฉ', 'ช', 'ง', 'ด', 'ฮ', 'ล', 'ห', 'น', 'ฯ', 'ร', 'ฆ', 'พ',
];

/// The symbol of an unknown cell.
pub const WILDCARD: char = '_';

/// Block sizes the engine supports: the values `0..N*N` must fit in 64 bits.
pub open spec fn supported(n: int) -> bool {
    1 <= n <= 8
}

/// The candidate values of one grid position, for block size `N`.
///
/// Bit `v` set means that value `v` is still possible.
#[derive(Debug, Clone, Copy)]
pub struct Cell<const N: usize> {
    bitset: u64,
}

impl<const N: usize> Cell<N> {
    /// The number of values, `N * N`.
    pub open spec fn range() -> int {
        N as int * N as int
    }

    /// The raw bits.
    pub closed spec fn bits(self) -> u64 {
        self.bitset
    }

    /// Whether `v` is still a candidate.
    pub open spec fn has(self, v: int) -> bool {
        bit_of(self.bits(), v)
    }

    /// The number of candidates.
    pub open spec fn size(self) -> nat {
        ones(self.bits())
    }

    /// The cell with every value of `0..N*N`.
    pub closed spec fn full_spec() -> Self {
        Cell { bitset: low_mask(Self::range()) }
    }

    /// The cell with the single value `v`.
    pub closed spec fn only_spec(v: int) -> Self {
        Cell { bitset: (1u64 << (v as u64)) }
    }

    /// Every candidate lies in `0..N*N`.
    pub open spec fn valid(self) -> bool {
        forall|v: int| #[trigger] self.has(v) ==> 0 <= v < Self::range()
    }

    /// Exactly the candidate `v` is left.
    pub open spec fn is_only(self, v: int) -> bool {
        forall|w: int| #[trigger] self.has(w) <==> w == v
    }

    /// The number of values, `N * N`.
    pub fn range_exec() -> (r: u32)
        requires
            supported(N as int),
        ensures
            r == Self::range(),
            1 <= r <= 64,
    {
        proof {
            lemma_square_le(N as int);
            assert(1 <= N as int * N as int) by (nonlinear_arith)
                requires
                    1 <= N as int,
            ;
        }
        (N * N) as u32
    }

    /// No candidate at all.
    pub fn empty() -> (r: Self)
        ensures
            r.bits() == 0,
            forall|v: int| !r.has(v),
            r.valid(),
            r.size() == 0,
    {
        proof {
            assert forall|v: int| !bit_of(0u64, v) by {
                lemma_bit_zero(v);
            }
            lemma_ones_zero(0u64, 64);
        }
        Cell { bitset: 0 }
    }

    /// Every value of `0..N*N` is a candidate.
    pub fn full() -> (r: Self)
        requires
            supported(N as int),
        ensures
            r == Self::full_spec(),
            r.bits() == low_mask(Self::range()),
            forall|v: int| r.has(v) <==> 0 <= v < Self::range(),
            r.valid(),
            r.size() == Self::range(),
    {
        let n = Self::range_exec();
        let b = 0xFFFF_FFFF_FFFF_FFFFu64 >> (64 - n);
        let r = Cell { bitset: b };
        proof {
            if n == 64 {
                assert(0xFFFF_FFFF_FFFF_FFFFu64 >> 0u64 == 0xFFFF_FFFF_FFFF_FFFFu64) by (bit_vector);
            }
            assert(b == low_mask(Self::range()));
            assert forall|v: int| r.has(v) <==> 0 <= v < Self::range() by {
                if 0 <= v < 64 {
                    lemma_low_mask(Self::range(), v);
                }
            }
            assert forall|w: int| Self::range() <= w < 64 implies !bit_of(b, w) by {
                assert(r.has(w) <==> 0 <= w < Self::range());
            }
            assert forall|w: int| 0 <= w < Self::range() implies bit_of(b, w) by {
                assert(r.has(w) <==> 0 <= w < Self::range());
            }
            lemma_ones_upto(b, Self::range(), 64);
            lemma_ones_all(b, Self::range());
        }
        r
    }

    /// The raw bits: bit `v` set means `v` is a candidate.
    pub fn bitset(self) -> (r: u64)
        ensures
            r == self.bits(),
    {
        self.bitset
    }

    /// Only the candidate `value`.
    pub fn from_value(value: u32) -> (r: Self)
        requires
            supported(N as int),
            value < Self::range(),
        ensures
            r == Self::only_spec(value as int),
            r.bits() == 1u64 << value,
            r.is_only(value as int),
            r.valid(),
            r.size() == 1,
    {
        proof {
            lemma_square_le(N as int);
        }
        let r = Cell { bitset: 1u64 << value };
        proof {
            assert forall|w: int| #[trigger] r.has(w) <==> w == value by {
                lemma_bit_single(value as u64, w);
            }
            lemma_size_of_only(r, value as int);
        }
        r
    }

    /// Whether `value` is a candidate.
    pub fn contains(self, value: u32) -> (r: bool)
        requires
            value < 64,
        ensures
            r == self.has(value as int),
    {
        (self.bitset >> value) & 1 == 1
    }

    /// The number of candidates.
    pub fn len(self) -> (r: usize)
        ensures
            r == self.size(),
            r <= 64,
    {
        let mut count: usize = 0;
        let mut v: u64 = 0;
        while v < 64
            invariant
                v <= 64,
                count == ones_below(self.bitset, v as int),
                count <= v,
            decreases 64 - v,
        {
            if (self.bitset >> v) & 1 == 1 {
                count = count + 1;
            }
            v = v + 1;
        }
        count
    }

    /// Removes the candidate `value`, which must be present.
    pub fn remove(&mut self, value: u32)
        requires
            value < 64,
            old(self).has(value as int),
        ensures
            final(self).bits() == old(self).bits() & !(1u64 << value),
            forall|w: int| #[trigger] final(self).has(w) <==> (old(self).has(w) && w != value),
            final(self).size() + 1 == old(self).size(),
            old(self).valid() ==> final(self).valid(),
    {
        let ghost before = *self;
        self.bitset = self.bitset & !(1u64 << value);
        proof {
            assert forall|w: int| #[trigger] bit_of(self.bitset, w) <==> (bit_of(before.bitset, w)
                && w != value) by {
                lemma_bit_clear(before.bitset, value as u64, w);
            }
            lemma_ones_minus(before.bitset, self.bitset, value as int, 64);
            assert forall|w: int| #[trigger] self.has(w) <==> (before.has(w) && w != value) by {
                assert(bit_of(self.bitset, w) <==> (bit_of(before.bitset, w) && w != value));
            }
        }
    }

    /// Same as [`Cell::remove`]: takes away the candidate `value`, which must be present.
    pub fn pop(&mut self, value: u32)
        requires
            value < 64,
            old(self).has(value as int),
        ensures
            forall|w: int| #[trigger] final(self).has(w) <==> (old(self).has(w) && w != value),
            final(self).size() + 1 == old(self).size(),
            old(self).valid() ==> final(self).valid(),
    {
        self.remove(value);
    }

    /// The cell with the candidate `value` put back.
    pub fn with(self, value: u32) -> (r: Self)
        requires
            value < 64,
        ensures
            r.bits() == self.bits() | (1u64 << value),
            forall|w: int| #[trigger] r.has(w) <==> (self.has(w) || w == value),
            !self.has(value as int) ==> r.size() == self.size() + 1,
    {
        let r = Cell { bitset: self.bitset | (1u64 << value) };
        proof {
            assert forall|w: int| #[trigger] bit_of(r.bitset, w) <==> (bit_of(self.bitset, w) || w
                == value) by {
                lemma_bit_or(self.bitset, 1u64 << value, w);
                lemma_bit_single(value as u64, w);
            }
            if !self.has(value as int) {
                lemma_ones_minus(r.bitset, self.bitset, value as int, 64);
            }
        }
        r
    }

    /// The lowest candidate, if any.
    fn lowest(self) -> (r: Option<u32>)
        ensures
            r matches Some(v) ==> v < 64 && self.has(v as int) && forall|w: int| 0 <= w < v ==> !#[trigger] self.has(w),
            r is None <==> forall|w: int| !#[trigger] self.has(w),
    {
        let mut v: u32 = 0;
        while v < 64
            invariant
                v <= 64,
                forall|w: int| 0 <= w < v ==> !#[trigger] self.has(w),
            decreases 64 - v,
        {
            if (self.bitset >> v) & 1 == 1 {
                assert(self.has(v as int));
                return Some(v);
            }
            v = v + 1;
        }
        None
    }

    /// The value if exactly one candidate is left.
    pub fn get_value(self) -> (r: Option<u32>)
        ensures
            r is Some <==> self.size() == 1,
            r matches Some(v) ==> v < 64 && self.is_only(v as int),
            forall|v: int| #[trigger] self.is_only(v) ==> r == Some(v as u32),
    {
        if self.len() == 1 {
            let r = self.lowest();
            proof {
                lemma_size_facts(self);
                lemma_size_facts_only(self);
                assert forall|v: int| #[trigger] self.is_only(v) implies r == Some(v as u32) by {
                    assert(self.has(v));
                }
            }
            r
        } else {
            proof {
                assert forall|v: int| #[trigger] self.is_only(v) implies false by {
                    lemma_size_of_only(self, v);
                }
            }
            None
        }
    }

    /// The lowest candidate, when it lies in `0..N*N`.
    pub fn first(self) -> (r: Option<u32>)
        requires
            supported(N as int),
        ensures
            r matches Some(v) ==> v < Self::range() && self.has(v as int) && forall|w: int| 0 <= w < v ==> !#[trigger] self.has(w),
            r is None <==> forall|w: int| 0 <= w < Self::range() ==> !#[trigger] self.has(w),
    {
        match self.lowest() {
            Some(v) => {
                if v < Self::range_exec() {
                    Some(v)
                } else {
                    None
                }
            },
            None => None,
        }
    }

    /// Takes the lowest candidate out, when it lies in `0..N*N`.
    pub fn pop_first(&mut self) -> (r: Option<u32>)
        requires
            supported(N as int),
        ensures
            r matches Some(v) ==> v < Self::range() && old(self).has(v as int) && (forall|w: int| 0 <= w < v ==> !#[trigger] old(self).has(w)) && forall|w: int| #[trigger] final(self).has(w) <==> (old(self).has(w) && w != v),
            r is None <==> forall|w: int| 0 <= w < Self::range() ==> !#[trigger] old(self).has(w),
            r is None ==> *final(self) == *old(self),
    {
        match self.first() {
            Some(v) => {
                proof {
                    lemma_square_le(N as int);
                }
                self.remove(v);
                Some(v)
            },
            None => None,
        }
    }

    /// The candidate with `index` candidates below it.
    pub fn nth(self, index: u32) -> (r: Option<u32>)
        ensures
            r matches Some(v) ==> v < 64 && self.has(v as int) && ones_below(self.bits(), v as int) == index,
            r is None <==> index >= self.size(),
    {
        let mut count: u32 = 0;
        let mut v: u32 = 0;
        while v < 64
            invariant
                v <= 64,
                count == ones_below(self.bitset, v as int),
                count <= index,
            decreases 64 - v,
        {
            if (self.bitset >> v) & 1 == 1 {
                if count == index {
                    proof {
                        lemma_ones_mono(self.bitset, v as int + 1, 64);
                    }
                    return Some(v);
                }
                count = count + 1;
            }
            v = v + 1;
        }
        None
    }

    /// The symbol of the value when exactly one candidate is left, else the wildcard.
    pub fn to_char(self) -> (r: char)
        ensures
            self.size() == 1 ==> exists|v: int| 0 <= v < 64 && self.is_only(v) && r == SYMBOLS@[v],
            self.size() != 1 ==> r == WILDCARD,
    {
        match self.get_value() {
            Some(v) => SYMBOLS[v as usize],
            None => WILDCARD,
        }
    }

    /// The cell that a symbol stands for: the wildcard gives every value, a
    /// value's symbol gives that value alone, any other character none.
    pub fn from_char(c: char) -> (r: Option<Self>)
        requires
            supported(N as int),
        ensures
            c == WILDCARD ==> r == Some(Self::full_spec()),
            c != WILDCARD ==> (r is None <==> forall|i: int| 0 <= i < Self::range() ==> SYMBOLS@[i] != c),
            c != WILDCARD && r is Some ==> exists|i: int| is_symbol_of(c, i, Self::range()) && r == Some(#[trigger] Self::only_spec(i)),
    {
        if c == WILDCARD {
            return Some(Self::full());
        }
        let n = Self::range_exec();
        let mut i: u32 = 0;
        while i < n
            invariant
                n == Self::range(),
                n <= 64,
                i <= n,
                supported(N as int),
                forall|j: int| 0 <= j < i ==> SYMBOLS@[j] != c,
            decreases n - i,
        {
            if SYMBOLS[i as usize] == c {
                return Some(Self::from_value(i));
            }
            i = i + 1;
        }
        None
    }

    /// The candidates of either cell.
    pub fn union(self, other: Self) -> (r: Self)
        ensures
            forall|w: int| #[trigger] r.has(w) <==> (self.has(w) || other.has(w)),
            self.valid() && other.valid() ==> r.valid(),
    {
        let r = Cell { bitset: self.bitset | other.bitset };
        proof {
            assert forall|w: int| #[trigger] r.has(w) <==> (self.has(w) || other.has(w)) by {
                lemma_bit_or(self.bitset, other.bitset, w);
            }
        }
        r
    }

    /// The candidates of both cells.
    pub fn intersect(self, other: Self) -> (r: Self)
        ensures
            forall|w: int| #[trigger] r.has(w) <==> (self.has(w) && other.has(w)),
            self.valid() ==> r.valid(),
    {
        let r = Cell { bitset: self.bitset & other.bitset };
        proof {
            assert forall|w: int| #[trigger] r.has(w) <==> (self.has(w) && other.has(w)) by {
                lemma_bit_and(self.bitset, other.bitset, w);
            }
        }
        r
    }

    /// The values of `0..N*N` that are not candidates.
    pub fn complement(self) -> (r: Self)
        requires
            supported(N as int),
        ensures
            forall|w: int| #[trigger] r.has(w) <==> (0 <= w < Self::range() && !self.has(w)),
            r.valid(),
    {
        let full = Self::full();
        let r = Cell { bitset: !self.bitset & full.bitset };
        proof {
            assert forall|w: int| #[trigger] r.has(w) <==> (0 <= w < Self::range() && !self.has(w)) by {
                lemma_bit_not_and(self.bitset, full.bitset, w);
                assert(full.has(w) <==> 0 <= w < Self::range());
            }
        }
        r
    }

    /// The candidates but `value`.
    pub fn without(self, value: u32) -> (r: Self)
        requires
            value < 64,
        ensures
            forall|w: int| #[trigger] r.has(w) <==> (self.has(w) && w != value),
            self.valid() ==> r.valid(),
    {
        let r = Cell { bitset: self.bitset & !(1u64 << value) };
        proof {
            assert forall|w: int| #[trigger] r.has(w) <==> (self.has(w) && w != value) by {
                lemma_bit_clear(self.bitset, value as u64, w);
            }
        }
        r
    }
}

impl<const N: usize> PartialEq for Cell<N> {
    fn eq(&self, other: &Cell<N>) -> (r: bool) {
        self.bitset == other.bitset
    }
}

impl<const N: usize> Eq for Cell<N> {
}

impl<const N: usize> vstd::std_specs::cmp::PartialEqSpecImpl for Cell<N> {
    open spec fn obeys_eq_spec() -> bool {
        true
    }

    open spec fn eq_spec(&self, other: &Cell<N>) -> bool {
        self.bits() == other.bits()
    }
}

/// Two cells with the same bits are the same cell.
pub proof fn lemma_bits_eq<const N: usize>(a: Cell<N>, b: Cell<N>)
    ensures
        a.bits() == b.bits() <==> a == b,
{
}

/// What the full cell and a single-value cell hold.
pub proof fn lemma_spec_cells<const N: usize>(v: int)
    requires
        supported(N as int),
        0 <= v < N as int * N as int,
    ensures
        Cell::<N>::only_spec(v).is_only(v),
        Cell::<N>::only_spec(v).size() == 1,
        Cell::<N>::only_spec(v).valid(),
        forall|w: int| #[trigger] Cell::<N>::full_spec().has(w) <==> 0 <= w < Cell::<N>::range(),
        Cell::<N>::full_spec().valid(),
{
    lemma_square_le(N as int);
    let c = Cell::<N>::only_spec(v);
    assert forall|w: int| #[trigger] c.has(w) <==> w == v by {
        lemma_bit_single(v as u64, w);
    }
    lemma_size_of_only(c, v);
    assert forall|w: int| #[trigger] Cell::<N>::full_spec().has(w) <==> 0 <= w < Cell::<N>::range() by {
        if 0 <= w < 64 {
            lemma_low_mask(Cell::<N>::range(), w);
        }
    }
}

/// `c` is the symbol of value `v`: its first place in the table, below `r`.
pub open spec fn is_symbol_of(c: char, v: int, r: int) -> bool {
    &&& 0 <= v < r
    &&& v < 64
    &&& SYMBOLS@[v] == c
    &&& forall|j: int| 0 <= j < v ==> SYMBOLS@[j] != c
}

/// `c` is the wildcard or the symbol of some value below `r`.
pub open spec fn recognized(c: char, r: int) -> bool {
    c == WILDCARD || exists|v: int| #[trigger] is_symbol_of(c, v, r)
}

/// A supported block size has at most 64 values.
pub proof fn lemma_square_le(n: int)
    requires
        0 <= n <= 8,
    ensures
        n * n <= 64,
        0 <= n * n,
{
    assert(n * n <= 64) by (nonlinear_arith)
        requires
            0 <= n <= 8,
    ;
}

/// The count of a word whose bits are exactly `0..r`.
proof fn lemma_ones_all(b: u64, r: int)
    requires
        0 <= r <= 64,
        forall|w: int| 0 <= w < r ==> bit_of(b, w),
    ensures
        ones_below(b, r) == r,
    decreases r,
{
    if r > 0 {
        lemma_ones_all(b, r - 1);
    }
}

/// A cell holding exactly one candidate has size one.
pub proof fn lemma_size_of_only<const N: usize>(c: Cell<N>, v: int)
    requires
        c.is_only(v),
    ensures
        c.size() == 1,
{
    assert(c.has(v));
    assert forall|w: int| #[trigger] bit_of(c.bits(), w) <==> w == v by {
        assert(c.has(w) <==> w == v);
    }
    lemma_size_one_below(c.bits(), v, 64);
}

proof fn lemma_size_one_below(b: u64, v: int, k: int)
    requires
        0 <= k <= 64,
        forall|w: int| #[trigger] bit_of(b, w) <==> w == v,
    ensures
        ones_below(b, k) == if v < k {
            1nat
        } else {
            0nat
        },
    decreases k,
{
    assert(bit_of(b, v));
    if k > 0 {
        lemma_size_one_below(b, v, k - 1);
        assert(bit_of(b, k - 1) <==> k - 1 == v);
    }
}

/// A cell whose candidates are all candidates of another is no larger.
pub proof fn lemma_size_subset<const N: usize>(a: Cell<N>, b: Cell<N>)
    requires
        forall|w: int| #[trigger] b.has(w) ==> a.has(w),
    ensures
        b.size() <= a.size(),
{
    assert forall|w: int| #[trigger] bit_of(b.bits(), w) implies bit_of(a.bits(), w) by {
        assert(b.has(w));
    }
    lemma_ones_subset(a.bits(), b.bits(), 64);
}

/// A cell of size one holds exactly one candidate: any candidate of it is the one.
pub proof fn lemma_size_facts_only<const N: usize>(c: Cell<N>)
    requires
        c.size() == 1,
    ensures
        forall|v: int| #[trigger] c.has(v) ==> c.is_only(v),
{
    lemma_size_facts(c);
    assert forall|v: int| #[trigger] c.has(v) implies c.is_only(v) by {
        assert forall|w: int| #[trigger] c.has(w) <==> w == v by {
            if c.has(w) && w != v {
                lemma_size_facts(c);
            }
        }
    }
}

/// A cell of size one holds exactly one candidate, and a cell with a candidate
/// is not empty.
pub proof fn lemma_size_facts<const N: usize>(c: Cell<N>)
    ensures
        c.size() == 0 <==> forall|w: int| !c.has(w),
        c.size() == 1 ==> exists|v: int| c.is_only(v),
        forall|v: int, w: int| c.has(v) && c.has(w) && v != w ==> c.size() >= 2,
        c.valid() ==> c.size() <= Cell::<N>::range() || Cell::<N>::range() > 64,
{
    lemma_ones_zero(c.bits(), 64);
    assert((forall|w: int| 0 <= w < 64 ==> !bit_of(c.bits(), w)) ==> forall|w: int| !c.has(w));
    if forall|w: int| !c.has(w) {
        assert forall|w: int| 0 <= w < 64 implies !bit_of(c.bits(), w) by {
            assert(!c.has(w));
        }
    }
    assert forall|v: int, w: int| c.has(v) && c.has(w) && v != w implies c.size() >= 2 by {
        lemma_ones_two(c.bits(), 64, v, w);
    }
    if c.size() == 1 {
        let v = choose|v: int| 0 <= v < 64 && bit_of(c.bits(), v);
        assert forall|w: int| #[trigger] c.has(w) <==> w == v by {
            if c.has(w) && w != v {
                lemma_ones_two(c.bits(), 64, v, w);
            }
        }
        assert(c.is_only(v));
    }
    if c.valid() && Cell::<N>::range() <= 64 {
        let r = Cell::<N>::range();
        if r >= 0 {
            assert forall|w: int| r <= w < 64 implies !bit_of(c.bits(), w) by {
                assert(c.has(w) ==> 0 <= w < r);
            }
            lemma_ones_upto(c.bits(), r, 64);
            lemma_ones_below_le(c.bits(), r);
        }
    }
}

} // verus!
