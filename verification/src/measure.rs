//! The annotation algebra: monoids, measurable elements, and the measure of a
//! sequence of elements.
//!
//! A finger tree caches, at every composite node, the combined measure of the
//! elements below it.  The cache is only meaningful because the combining
//! operation is associative with an identity; the `Monoid` trait therefore
//! carries those laws as proof obligations that every instance must discharge.
use vstd::prelude::*;

verus! {

/// A type with an associative binary operation `join` and an identity `unit`.
///
/// The spec-level operation is `plus` (with identity `zero`); the executable
/// `unit` and `join` must agree with them, and every instance must prove the
/// three monoid laws.  Measures are copied freely into caches, so the type is
/// required to be `Copy`.
pub trait Monoid: Sized + Copy {
    /// The identity value, at the specification level.
    spec fn zero() -> Self;

    /// The combining operation, at the specification level.
    spec fn plus(self, other: Self) -> Self;

    /// The identity value.
    fn unit() -> (r: Self)
        ensures
            r == Self::zero(),
    ;

    /// The combining operation.
    fn join(self, other: Self) -> (r: Self)
        ensures
            r == self.plus(other),
    ;

    /// Law: `unit` is a left identity of `join`.
    proof fn unit_left(x: Self)
        ensures
            Self::zero().plus(x) == x,
    ;

    /// Law: `unit` is a right identity of `join`.
    proof fn unit_right(x: Self)
        ensures
            x.plus(Self::zero()) == x,
    ;

    /// Law: `join` is associative.
    proof fn assoc(x: Self, y: Self, z: Self)
        ensures
            x.plus(y).plus(z) == x.plus(y.plus(z)),
    ;
}

/// A type whose values can be measured in the monoid `M`.
pub trait Measurable<M: Monoid>: Sized {
    /// The measure of a value, at the specification level.
    spec fn measure_spec(self) -> M;

    /// The measure of a value.
    fn measure(&self) -> (r: M)
        ensures
            r == (*self).measure_spec(),
    ;
}

/// The left fold of `plus` over a sequence of measures, starting from `zero`.
pub open spec fn seq_concat<M: Monoid>(s: Seq<M>) -> M
    decreases s.len(),
{
    if s.len() == 0 {
        M::zero()
    } else {
        seq_concat(s.drop_last()).plus(s.last())
    }
}

/// The combined measure of a sequence of elements, in left-to-right order.
pub open spec fn mseq<M: Monoid, A: Measurable<M>>(s: Seq<A>) -> M
    decreases s.len(),
{
    if s.len() == 0 {
        M::zero()
    } else {
        mseq::<M, A>(s.drop_last()).plus(s.last().measure_spec())
    }
}

/// The measure of the empty sequence is the identity: with the contracts of
/// `FingerTree::empty` and `FingerTree::measure`, the measure of the empty
/// tree is `unit`.
pub proof fn lemma_mseq_empty<M: Monoid, A: Measurable<M>>()
    ensures
        mseq::<M, A>(Seq::<A>::empty()) == M::zero(),
{
}

/// The measure of a one-element sequence is that element's measure.
pub proof fn lemma_mseq_singleton<M: Monoid, A: Measurable<M>>(a: A)
    ensures
        mseq::<M, A>(seq![a]) == a.measure_spec(),
{
    assert(seq![a].drop_last() =~= Seq::<A>::empty());
    assert(seq![a].last() == a);
    assert(mseq::<M, A>(seq![a]) == mseq::<M, A>(Seq::<A>::empty()).plus(a.measure_spec()));
    M::unit_left(a.measure_spec());
}

/// The measure of a concatenation is the join of the measures of the parts.
pub proof fn lemma_mseq_app<M: Monoid, A: Measurable<M>>(s1: Seq<A>, s2: Seq<A>)
    ensures
        mseq::<M, A>(s1 + s2) == mseq::<M, A>(s1).plus(mseq::<M, A>(s2)),
    decreases s2.len(),
{
    if s2.len() == 0 {
        assert(s1 + s2 =~= s1);
        M::unit_right(mseq::<M, A>(s1));
    } else {
        lemma_mseq_app::<M, A>(s1, s2.drop_last());
        assert((s1 + s2).drop_last() =~= s1 + s2.drop_last());
        assert((s1 + s2).last() == s2.last());
        M::assoc(mseq::<M, A>(s1), mseq::<M, A>(s2.drop_last()), s2.last().measure_spec());
    }
}

/// Folds `join` over the measures in a vector, from the left.
pub fn concat_all<M: Monoid>(xs: &Vec<M>) -> (r: M)
    ensures
        r == seq_concat(xs@),
{
    let mut acc = M::unit();
    let mut i: usize = 0;
    proof {
        assert(xs@.take(0) =~= Seq::<M>::empty());
    }
    while i < xs.len()
        invariant
            i <= xs.len(),
            acc == seq_concat(xs@.take(i as int)),
        decreases xs.len() - i,
    {
        proof {
            assert(xs@.take(i + 1).drop_last() =~= xs@.take(i as int));
            assert(xs@.take(i + 1).last() == xs@[i as int]);
        }
        acc = acc.join(xs[i]);
        i = i + 1;
    }
    proof {
        assert(xs@.take(xs@.len() as int) =~= xs@);
    }
    acc
}

/// The element-count monoid: measures combine by (saturating) addition.
#[derive(Clone, Copy, Debug, PartialEq, Eq, Structural)]
pub struct Length(pub usize);

impl Monoid for Length {
    open spec fn zero() -> Self {
        Length(0)
    }

    open spec fn plus(self, other: Self) -> Self {
        if self.0 + other.0 > usize::MAX {
            Length(usize::MAX)
        } else {
            Length((self.0 + other.0) as usize)
        }
    }

    fn unit() -> (r: Self) {
        Length(0)
    }

    fn join(self, other: Self) -> (r: Self) {
        if other.0 > usize::MAX - self.0 {
            Length(usize::MAX)
        } else {
            Length(self.0 + other.0)
        }
    }

    proof fn unit_left(x: Self) {
    }

    proof fn unit_right(x: Self) {
    }

    proof fn assoc(x: Self, y: Self, z: Self) {
    }
}

/// Every element counts one: the `Measurable` instance backing index-based
/// access through the `Length` monoid.
impl Measurable<Length> for u64 {
    open spec fn measure_spec(self) -> Length {
        Length(1)
    }

    fn measure(&self) -> (r: Length) {
        Length(1)
    }
}

/// When every element measures `Length(1)`, the measure of a sequence is its
/// length.
pub proof fn lemma_length_counts<A: Measurable<Length>>(s: Seq<A>)
    requires
        forall|a: A| (#[trigger] a.measure_spec()) == Length(1),
        s.len() <= usize::MAX,
    ensures
        mseq::<Length, A>(s) == Length(s.len() as usize),
    decreases s.len(),
{
    if s.len() == 0 {
    } else {
        lemma_length_counts::<A>(s.drop_last());
    }
}

/// A predicate on accumulated measures, used to choose a split point.
pub trait SplitPredicate<M: Monoid> {
    /// The predicate, at the specification level.
    spec fn test_spec(&self, m: M) -> bool;

    /// Tests the predicate on an accumulated measure.
    fn test(&self, m: M) -> (r: bool)
        ensures
            r == self.test_spec(m),
    ;
}

/// The predicate `count > bound` over the `Length` monoid: splitting with it
/// is index-based access.
#[derive(Clone, Copy, Debug, PartialEq, Eq, Structural)]
pub struct CountAbove(pub usize);

impl SplitPredicate<Length> for CountAbove {
    open spec fn test_spec(&self, m: Length) -> bool {
        m.0 > self.0
    }

    fn test(&self, m: Length) -> (r: bool) {
        m.0 > self.0
    }
}

} // verus!
