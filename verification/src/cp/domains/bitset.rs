//! Integer domains that store their values in a bit set.
use bit_vec::BitVec;
use vstd::prelude::*;

use super::{Domain, DomainMut};

verus! {

#[verifier::external_type_specification]
#[verifier::external_body]
#[verifier::reject_recursive_types(B)]
pub struct ExBitVec<B>(BitVec<B>);

/// The bits of a bit vector, in order.
pub uninterp spec fn bit_vec_bits(v: BitVec) -> Seq<bool>;

/// `BitVec::from_elem`: a bit vector of `len` bits, each of them `bit`.
#[verifier::external_body]
fn bit_vec_from_elem(len: usize, bit: bool) -> (v: BitVec)
    ensures
        bit_vec_bits(v) == Seq::new(len as nat, |i: int| bit),
{
    BitVec::from_elem(len, bit)
}

/// Indexing a `BitVec`: the bit at the position, which must be below the length.
#[verifier::external_body]
fn bit_vec_get(v: &BitVec, i: usize) -> (bit: bool)
    requires
        i < bit_vec_bits(*v).len(),
    ensures
        bit == bit_vec_bits(*v)[i as int],
{
    v[i]
}

/// `BitVec::set`: only the bit at the position, which must be below the length, changes.
#[verifier::external_body]
fn bit_vec_set(v: &mut BitVec, i: usize, x: bool)
    requires
        i < bit_vec_bits(*old(v)).len(),
    ensures
        bit_vec_bits(*final(v)) == bit_vec_bits(*old(v)).update(i as int, x),
{
    v.set(i, x)
}

/// `BitVec::clone`: a bit vector with the same bits.
#[verifier::external_body]
fn bit_vec_clone(v: &BitVec) -> (c: BitVec)
    ensures
        bit_vec_bits(c) == bit_vec_bits(*v),
{
    v.clone()
}

/// The number of set bits in positions `a..b`.
pub open spec fn count(s: Seq<bool>, a: int, b: int) -> nat
    decreases b - a,
{
    if b <= a {
        0
    } else {
        count(s, a, b - 1) + if s[b - 1] { 1nat } else { 0nat }
    }
}

/// Counting over `a..b` is counting over `a..k` and over `k..b`.
pub proof fn lemma_count_split(s: Seq<bool>, a: int, k: int, b: int)
    requires
        a <= k <= b,
    ensures
        count(s, a, b) == count(s, a, k) + count(s, k, b),
    decreases b - k,
{
    if k < b {
        lemma_count_split(s, a, k, b - 1);
    }
}

/// No set bit is counted where none is set.
pub proof fn lemma_count_zero(s: Seq<bool>, a: int, b: int)
    ensures
        count(s, a, b) == 0 <==> forall|i: int| a <= i < b ==> !s[i],
    decreases b - a,
{
    if a < b {
        lemma_count_zero(s, a, b - 1);
    }
}

/// A single position counts its bit.
pub proof fn lemma_count_unit(s: Seq<bool>, i: int)
    ensures
        count(s, i, i + 1) == if s[i] { 1nat } else { 0nat },
{
    assert(count(s, i, i) == 0);
}

/// Changing one bit changes the count by at most that bit.
pub proof fn lemma_count_update(s: Seq<bool>, a: int, b: int, i: int, x: bool)
    requires
        0 <= i < s.len(),
        0 <= a,
        b <= s.len(),
    ensures
        count(s.update(i, x), a, b) == if a <= i < b {
            count(s, a, b) - (if s[i] { 1int } else { 0int }) + (if x { 1int } else { 0int })
        } else {
            count(s, a, b) as int
        },
    decreases b - a,
{
    if a < b {
        lemma_count_update(s, a, b - 1, i, x);
    }
}

/// All bits of `a..b` set means they are all counted.
pub proof fn lemma_count_all(s: Seq<bool>, a: int, b: int)
    requires
        a <= b,
        forall|i: int| a <= i < b ==> s[i],
    ensures
        count(s, a, b) == b - a,
    decreases b - a,
{
    if a < b {
        lemma_count_all(s, a, b - 1);
    }
}

/// A bit set domain stores the domain values in a bitset. For large domains, there is a large
/// memory footprint, but removing a value is cheap.
///
/// The value `v` is in the domain when the domain is not empty, `v` lies between the bounds, and
/// the bit of `v` (at position `v - offset`) is set.
pub struct BitSetDomain {
    offset: i64,
    lower_bound: i64,
    upper_bound: i64,
    size: usize,
    values: BitVec,
}

/// A bit set domain as values: the value of the first bit, the bounds, the size and the bits.
pub struct BitSetV {
    pub offset: int,
    pub lower: int,
    pub upper: int,
    pub size: nat,
    pub bits: Seq<bool>,
}

impl BitSetV {
    /// Whether the value is in the domain.
    pub open spec fn has(self, v: int) -> bool {
        self.size > 0 && self.lower <= v <= self.upper && self.offset <= v < self.offset + self.bits.len()
            && self.bits[v - self.offset]
    }

    /// The bounds lie in the bits and are set, and the size counts the set bits between them.
    pub open spec fn consistent(self) -> bool {
        &&& self.bits.len() < usize::MAX
        &&& self.size > 0 ==> {
            &&& self.offset <= self.lower <= self.upper < self.offset + self.bits.len()
            &&& self.bits[self.lower - self.offset]
            &&& self.bits[self.upper - self.offset]
            &&& self.size == count(self.bits, self.lower - self.offset, self.upper - self.offset + 1)
        }
    }
}

impl View for BitSetDomain {
    type V = BitSetV;

    closed spec fn view(&self) -> BitSetV {
        BitSetV {
            offset: self.offset as int,
            lower: self.lower_bound as int,
            upper: self.upper_bound as int,
            size: self.size as nat,
            bits: bit_vec_bits(self.values),
        }
    }
}

/// Counting the bits of a consistent nonempty domain gives its size, and more than one set bit
/// means distinct bounds.
proof fn lemma_consistent(d: BitSetV)
    requires
        d.consistent(),
    ensures
        d.size > 0 ==> d.has(d.lower) && d.has(d.upper),
        forall|v: int| #[trigger] d.has(v) ==> d.size > 0 && d.lower <= v <= d.upper,
        d.size == 1 ==> forall|v: int| #[trigger] d.has(v) <==> v == d.lower,
        d.size > 1 ==> d.lower < d.upper,
{
    if d.size > 0 {
        let a = d.lower - d.offset;
        let b = d.upper - d.offset + 1;
        if d.size == 1 {
            assert forall|v: int| #[trigger] d.has(v) implies v == d.lower by {
                if v != d.lower {
                    let i = v - d.offset;
                    lemma_count_split(d.bits, a, a + 1, b);
                    lemma_count_split(d.bits, a + 1, i, b);
                    lemma_count_split(d.bits, i, i + 1, b);
                    lemma_count_unit(d.bits, a);
                    lemma_count_unit(d.bits, i);
                }
            }
        }
        if d.size > 1 && d.lower == d.upper {
            lemma_count_unit(d.bits, a);
        }
    }
}

impl BitSetDomain {
    /// Create a new domain with the values from the lower to the upper bound; it is empty when the
    /// lower bound exceeds the upper one.
    pub fn new(lower_bound: i64, upper_bound: i64) -> (domain: BitSetDomain)
        requires
            upper_bound - lower_bound + 1 < usize::MAX,
        ensures
            domain.domain_wf(),
            forall|v: int| #[trigger] domain.contains(v) <==> lower_bound <= v <= upper_bound,
            domain.size_spec() == if lower_bound <= upper_bound { (upper_bound - lower_bound + 1) as nat } else { 0 },
            lower_bound <= upper_bound ==> domain.min_spec() == lower_bound && domain.max_spec() == upper_bound,
    {
        if upper_bound < lower_bound {
            let values = bit_vec_from_elem(0, true);
            return BitSetDomain { offset: lower_bound, lower_bound, upper_bound, size: 0, values };
        }
        let size: usize = (upper_bound as i128 - lower_bound as i128 + 1) as usize;
        let values = bit_vec_from_elem(size, true);
        let domain = BitSetDomain { offset: lower_bound, lower_bound, upper_bound, size, values };
        proof {
            let s = domain@.bits;
            assert forall|i: int| 0 <= i < size implies s[i] by {}
            lemma_count_all(s, 0, size as int);
        }
        domain
    }

    /// A domain with the same values.
    pub fn duplicate(&self) -> (copy: BitSetDomain)
        ensures
            copy@ == self@,
            copy.domain_wf() == self.domain_wf(),
            copy.size_spec() == self.size_spec(),
            copy.min_spec() == self.min_spec(),
            copy.max_spec() == self.max_spec(),
            forall|v: int| copy.contains(v) == self.contains(v),
    {
        let values = bit_vec_clone(&self.values);
        BitSetDomain {
            offset: self.offset,
            lower_bound: self.lower_bound,
            upper_bound: self.upper_bound,
            size: self.size,
            values,
        }
    }
}

/// Domains with the same view hold the same values, bounds and size.
pub proof fn lemma_same_view(a: &BitSetDomain, b: &BitSetDomain)
    requires
        a@ == b@,
    ensures
        forall|v: int| #[trigger] a.contains(v) == b.contains(v),
        a.size_spec() == b.size_spec(),
        a.min_spec() == b.min_spec(),
        a.max_spec() == b.max_spec(),
        a.domain_wf() == b.domain_wf(),
{
}

impl Domain for BitSetDomain {
    closed spec fn contains(&self, value: int) -> bool {
        self@.has(value)
    }

    closed spec fn size_spec(&self) -> nat {
        self@.size
    }

    closed spec fn min_spec(&self) -> i64 {
        self.lower_bound
    }

    closed spec fn max_spec(&self) -> i64 {
        self.upper_bound
    }

    closed spec fn domain_wf(&self) -> bool {
        self@.consistent()
    }

    proof fn lemma_domain(&self) {
        lemma_consistent(self@);
    }

    fn fixed_value(&self) -> (value: Option<i64>) {
        if self.size == 1 {
            Some(self.lower_bound)
        } else {
            None
        }
    }

    fn min(&self) -> (min: i64) {
        self.lower_bound
    }

    fn max(&self) -> (max: i64) {
        self.upper_bound
    }

    fn size(&self) -> (size: usize) {
        self.size
    }
}

impl DomainMut for BitSetDomain {
    fn remove(&mut self, value: &i64) -> (nonempty: bool) {
        let value = *value;
        proof {
            lemma_consistent(self@);
        }
        if self.size == 0 || value < self.lower_bound || value > self.upper_bound {
            return self.size > 0;
        }
        let ghost old_view = self@;
        let ghost a = self.lower_bound - self.offset;
        let ghost b = self.upper_bound - self.offset + 1;
        let idx: usize = (value as i128 - self.offset as i128) as usize;
        if !bit_vec_get(&self.values, idx) {
            return true;
        }
        bit_vec_set(&mut self.values, idx, false);
        let ghost bits = self@.bits;
        proof {
            lemma_count_update(old_view.bits, a, b, idx as int, false);
        }
        self.size = self.size - 1;
        if self.size == 0 {
            return false;
        }
        if value == self.lower_bound {
            let mut i: usize = idx + 1;
            proof {
                lemma_count_split(bits, a, a + 1, b);
                lemma_count_unit(bits, a);
            }
            while !bit_vec_get(&self.values, i)
                invariant
                    self@.bits == bits,
                    idx == a,
                    0 <= a,
                    idx < i <= b - 1,
                    b <= bits.len(),
                    bits.len() < usize::MAX,
                    bits[b - 1],
                    self.size == count(bits, i as int, b),
                    forall|k: int| a <= k < i ==> !bits[k],
                decreases b - i,
            {
                proof {
                    lemma_count_split(bits, i as int, i + 1, b);
                    lemma_count_unit(bits, i as int);
                }
                i = i + 1;
            }
            self.lower_bound = (self.offset as i128 + i as i128) as i64;
        } else if value == self.upper_bound {
            let mut i: usize = idx - 1;
            proof {
                lemma_count_split(bits, a, b - 1, b);
                lemma_count_unit(bits, b - 1);
            }
            while !bit_vec_get(&self.values, i)
                invariant
                    self@.bits == bits,
                    idx == b - 1,
                    0 <= a <= i < idx,
                    idx < bits.len(),
                    bits[a],
                    self.size == count(bits, a, i + 1),
                    forall|k: int| i < k < b ==> !bits[k],
                decreases i,
            {
                proof {
                    lemma_count_split(bits, a, i as int, i + 1);
                    lemma_count_unit(bits, i as int);
                }
                i = i - 1;
            }
            self.upper_bound = (self.offset as i128 + i as i128) as i64;
        }
        proof {
            assert forall|v: int| #[trigger] self@.has(v) == (old_view.has(v) && v != value) by {
                let k = v - old_view.offset;
                if old_view.offset <= v < old_view.offset + bits.len() {
                    assert(bits[k] == (old_view.bits[k] && k != idx));
                }
            }
        }
        true
    }

    fn set_max(&mut self, value: &i64) -> (nonempty: bool) {
        let value = *value;
        proof {
            lemma_consistent(self@);
        }
        if self.size == 0 || value >= self.upper_bound {
            return self.size > 0;
        }
        if value < self.lower_bound {
            self.size = 0;
            return false;
        }
        let ghost bits = self@.bits;
        let ghost a = self.lower_bound - self.offset;
        let ghost b = self.upper_bound - self.offset + 1;
        let mut i: usize = (value as i128 - self.offset as i128) as usize;
        let ghost cut = i as int + 1;
        proof {
            lemma_count_split(bits, a, cut, b);
        }
        let removed: usize = count_set(&self.values, i + 1, (self.upper_bound as i128 - self.offset as i128) as usize + 1);
        while !bit_vec_get(&self.values, i)
            invariant
                self@.bits == bits,
                0 <= a <= i < cut,
                bits[a],
                cut < b <= bits.len(),
                forall|k: int| i < k < cut ==> !bits[k],
                count(bits, a, i + 1) == count(bits, a, cut),
            decreases i,
        {
            proof {
                lemma_count_split(bits, a, i as int, i + 1);
                lemma_count_unit(bits, i as int);
            }
            i = i - 1;
        }
        self.size = self.size - removed;
        self.upper_bound = (self.offset as i128 + i as i128) as i64;
        true
    }

    fn set_min(&mut self, value: &i64) -> (nonempty: bool) {
        let value = *value;
        proof {
            lemma_consistent(self@);
        }
        if self.size == 0 || value <= self.lower_bound {
            return self.size > 0;
        }
        if value > self.upper_bound {
            self.size = 0;
            return false;
        }
        let ghost bits = self@.bits;
        let ghost a = self.lower_bound - self.offset;
        let ghost b = self.upper_bound - self.offset + 1;
        let mut i: usize = (value as i128 - self.offset as i128) as usize;
        let ghost cut = i as int;
        proof {
            lemma_count_split(bits, a, cut, b);
        }
        let removed: usize = count_set(&self.values, (self.lower_bound as i128 - self.offset as i128) as usize, i);
        while !bit_vec_get(&self.values, i)
            invariant
                self@.bits == bits,
                a < cut <= i < b,
                bits[b - 1],
                b <= bits.len(),
                bits.len() < usize::MAX,
                forall|k: int| cut <= k < i ==> !bits[k],
                count(bits, i as int, b) == count(bits, cut, b),
            decreases b - i,
        {
            proof {
                lemma_count_split(bits, i as int, i + 1, b);
                lemma_count_unit(bits, i as int);
            }
            i = i + 1;
        }
        self.size = self.size - removed;
        self.lower_bound = (self.offset as i128 + i as i128) as i64;
        true
    }

    fn fix(&mut self, value: &i64) -> (nonempty: bool) {
        self.set_min(value) && self.set_max(value)
    }
}

/// The number of set bits in positions `a..b`.
fn count_set(v: &BitVec, a: usize, b: usize) -> (n: usize)
    requires
        a <= b <= bit_vec_bits(*v).len(),
    ensures
        n == count(bit_vec_bits(*v), a as int, b as int),
{
    let mut n: usize = 0;
    let mut i: usize = a;
    while i < b
        invariant
            a <= i <= b <= bit_vec_bits(*v).len(),
            n == count(bit_vec_bits(*v), a as int, i as int),
            n <= i - a,
        decreases b - i,
    {
        if bit_vec_get(v, i) {
            n = n + 1;
        }
        i = i + 1;
    }
    n
}

} // verus!
