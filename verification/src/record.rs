//! The running aggregate kept for one key.

use vstd::prelude::*;

verus! {

/// The mathematical content of a running aggregate.
///
/// Values are fixed-point tenths; `sum` and `count` are unbounded here.
pub struct Stats {
    pub min: int,
    pub max: int,
    pub count: nat,
    pub sum: int,
}

impl Stats {
    /// The aggregate of exactly one observation.
    pub open spec fn single(value: int) -> Stats {
        Stats { min: value, max: value, count: 1, sum: value }
    }

    /// The aggregate of one more observation.
    pub open spec fn observe(self, value: int) -> Stats {
        self.merge(Stats::single(value))
    }

    /// The aggregate of the observations of `self` and `other` together.
    pub open spec fn merge(self, other: Stats) -> Stats {
        Stats {
            min: if self.min <= other.min { self.min } else { other.min },
            max: if self.max >= other.max { self.max } else { other.max },
            count: self.count + other.count,
            sum: self.sum + other.sum,
        }
    }

    /// What every aggregate of at least one `i32` observation satisfies.
    pub open spec fn consistent(self) -> bool {
        &&& self.count >= 1
        &&& i32::MIN <= self.min <= self.max <= i32::MAX
        &&& self.count * self.min <= self.sum <= self.count * self.max
    }
}

/// Merging is commutative.
pub proof fn lemma_merge_commutative(a: Stats, b: Stats)
    ensures
        a.merge(b) == b.merge(a),
{
}

/// Merging is associative.
pub proof fn lemma_merge_associative(a: Stats, b: Stats, c: Stats)
    ensures
        a.merge(b).merge(c) == a.merge(b.merge(c)),
{
}

/// Merging two consistent aggregates gives a consistent aggregate.
pub proof fn lemma_merge_consistent(a: Stats, b: Stats)
    requires
        a.consistent(),
        b.consistent(),
    ensures
        a.merge(b).consistent(),
{
    let m = a.merge(b);
    assert(a.count * m.min <= a.count * a.min && a.count * a.max <= a.count * m.max
        && b.count * m.min <= b.count * b.min && b.count * b.max <= b.count * m.max
        && m.count * m.min == a.count * m.min + b.count * m.min
        && m.count * m.max == a.count * m.max + b.count * m.max) by (nonlinear_arith)
        requires
            m.min <= a.min,
            m.min <= b.min,
            a.max <= m.max,
            b.max <= m.max,
            m.count == a.count + b.count,
    ;
}

/// The sum of a consistent aggregate with at most `u64::MAX` observations fits an `i128`.
pub proof fn lemma_sum_fits(a: Stats)
    requires
        a.consistent(),
        a.count <= u64::MAX,
    ensures
        -0x8000_0000_0000_0000_0000_0000int <= a.sum <= 0x8000_0000_0000_0000_0000_0000int,
{
    assert(a.count * a.min >= -0x8000_0000_0000_0000_0000_0000int && a.count * a.max
        <= 0x8000_0000_0000_0000_0000_0000int) by (nonlinear_arith)
        requires
            1 <= a.count <= 0xffff_ffff_ffff_ffff,
            -0x8000_0000 <= a.min <= a.max <= 0x7fff_ffff,
    ;
}

/// Running minimum, maximum, sum and count of the values seen for one key.
#[derive(Clone, Copy, Debug, PartialEq, Eq)]
pub struct Record {
    max: i32,
    min: i32,
    count: u64,
    sum: i128,
}

impl View for Record {
    type V = Stats;

    closed spec fn view(&self) -> Stats {
        Stats {
            min: self.min as int,
            max: self.max as int,
            count: self.count as nat,
            sum: self.sum as int,
        }
    }
}

/// What a record stands for is bounded by the widths of its fields.
pub proof fn lemma_record_fits(r: Record)
    ensures
        r@.count <= u64::MAX,
        i32::MIN <= r@.min <= i32::MAX,
        i32::MIN <= r@.max <= i32::MAX,
        i128::MIN <= r@.sum <= i128::MAX,
{
}

impl Record {
    #[verifier::type_invariant]
    spec fn well_formed(self) -> bool {
        self@.consistent()
    }

    /// The aggregate of a single observation.
    pub fn new(value: i32) -> (r: Self)
        ensures
            r@ == Stats::single(value as int),
    {
        assert(1 * (value as int) == value as int);
        Record { max: value, min: value, count: 1, sum: value as i128 }
    }

    /// Largest value seen.
    pub fn max(&self) -> (r: i32)
        ensures
            r == self@.max,
    {
        self.max
    }

    /// Smallest value seen.
    pub fn min(&self) -> (r: i32)
        ensures
            r == self@.min,
    {
        self.min
    }

    /// Number of values seen.
    pub fn count(&self) -> (r: u64)
        ensures
            r == self@.count,
            r >= 1,
    {
        proof {
            use_type_invariant(self);
        }
        self.count
    }

    /// Exact total of the values seen.
    pub fn sum(&self) -> (r: i128)
        ensures
            r == self@.sum,
    {
        self.sum
    }

    /// Folds one more value in.
    pub fn observe(&mut self, value: i32)
        requires
            old(self)@.count < u64::MAX,
        ensures
            final(self)@ == old(self)@.observe(value as int),
    {
        proof {
            use_type_invariant(&*self);
            lemma_merge_consistent(self@, Stats::single(value as int));
            lemma_sum_fits(self@);
        }
        let merged = Record {
            max: if self.max >= value { self.max } else { value },
            min: if self.min <= value { self.min } else { value },
            count: self.count + 1,
            sum: self.sum + value as i128,
        };
        *self = merged;
    }

    /// Folds in everything `other` has seen.
    pub fn merge(&mut self, other: &Record)
        requires
            old(self)@.count + other@.count <= u64::MAX,
        ensures
            final(self)@ == old(self)@.merge(other@),
    {
        proof {
            use_type_invariant(&*self);
            use_type_invariant(other);
            lemma_merge_consistent(self@, other@);
            lemma_sum_fits(self@);
            lemma_sum_fits(other@);
        }
        let merged = Record {
            max: if self.max >= other.max { self.max } else { other.max },
            min: if self.min <= other.min { self.min } else { other.min },
            count: self.count + other.count,
            sum: self.sum + other.sum,
        };
        *self = merged;
    }
}

} // verus!
