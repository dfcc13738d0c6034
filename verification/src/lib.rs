//! 2-3 finger trees: a persistent representation of sequences supporting
//! access to both ends in amortized constant time, and concatenation and
//! splitting in time logarithmic in the size of the smaller piece.
//!
//! The structure is generic over an associative annotation (a monoid and a
//! measure on elements), so the same tree can serve as a sequence, a priority
//! queue, or a search structure keyed on any monotone annotation.
use vstd::prelude::*;

pub mod measure;
mod ops;

pub use self::measure::Measurable;
pub use self::measure::Monoid;

use self::measure::lemma_length_counts;
use self::measure::lemma_mseq_singleton;
use self::measure::mseq;
use self::measure::CountAbove;
use self::measure::Length;
use self::measure::SplitPredicate;

verus! {

/// A leaf element, or a 2- or 3-way grouping of children with the combined
/// measure of its leaves cached at construction.
#[derive(Debug)]
pub enum Node<A, M> {
    Leaf(A),
    Node2(M, Box<Node<A, M>>, Box<Node<A, M>>),
    Node3(M, Box<Node<A, M>>, Box<Node<A, M>>, Box<Node<A, M>>),
}

/// An ordered run of 1 to 4 nodes forming one end of a tree level.
#[derive(Debug)]
pub struct Digit<A, M>(pub Vec<Node<A, M>>);

/// The recursive spine: empty, a single node, or a prefix digit, a nested
/// tree of one-level-deeper nodes, and a suffix digit, with the combined
/// measure of the whole level cached at construction.
#[derive(Debug)]
pub enum FingerTree<A, M> {
    Nil,
    Single(Node<A, M>),
    Deep { measure: M, prefix: Digit<A, M>, tree: Box<FingerTree<A, M>>, suffix: Digit<A, M> },
}

impl<A: Measurable<M>, M: Monoid> Node<A, M> {
    /// The elements under this node, in left-to-right order.
    pub open spec fn elems(self) -> Seq<A>
        decreases self,
    {
        match self {
            Node::Leaf(a) => seq![a],
            Node::Node2(_, x, y) => (*x).elems() + (*y).elems(),
            Node::Node3(_, x, y, z) => ((*x).elems() + (*y).elems()) + (*z).elems(),
        }
    }

    /// The measure of this node: the element's measure for a leaf, the cached
    /// value for a grouping.
    pub open spec fn mval(self) -> M {
        match self {
            Node::Leaf(a) => a.measure_spec(),
            Node::Node2(m, _, _) => m,
            Node::Node3(m, _, _, _) => m,
        }
    }

    /// Well-formed at grouping depth `d`: leaves sit at depth 0, groupings
    /// hold well-formed children one level down, and every cached measure is
    /// the combined measure of the elements below it.
    pub open spec fn wf_at(self, d: nat) -> bool
        decreases self,
    {
        match self {
            Node::Leaf(_) => d == 0,
            Node::Node2(m, x, y) => d > 0 && (*x).wf_at((d - 1) as nat) && (*y).wf_at(
                (d - 1) as nat,
            ) && m == mseq::<M, A>(self.elems()),
            Node::Node3(m, x, y, z) => d > 0 && (*x).wf_at((d - 1) as nat) && (*y).wf_at(
                (d - 1) as nat,
            ) && (*z).wf_at((d - 1) as nat) && m == mseq::<M, A>(self.elems()),
        }
    }
}

/// The elements under a run of nodes, in left-to-right order.
pub open spec fn nodes_elems<A: Measurable<M>, M: Monoid>(s: Seq<Node<A, M>>) -> Seq<A>
    decreases s.len(),
{
    if s.len() == 0 {
        Seq::<A>::empty()
    } else {
        nodes_elems(s.drop_last()) + s.last().elems()
    }
}

/// The left fold of the measures of a run of nodes.
pub open spec fn nodes_mval<A: Measurable<M>, M: Monoid>(s: Seq<Node<A, M>>) -> M
    decreases s.len(),
{
    if s.len() == 0 {
        M::zero()
    } else {
        nodes_mval(s.drop_last()).plus(s.last().mval())
    }
}

/// Every node in the run is well-formed at depth `d`.
pub open spec fn nodes_wf<A: Measurable<M>, M: Monoid>(s: Seq<Node<A, M>>, d: nat) -> bool {
    forall|i: int| 0 <= i < s.len() ==> (#[trigger] s[i]).wf_at(d)
}

impl<A: Measurable<M>, M: Monoid> Digit<A, M> {
    /// The elements under this digit, in left-to-right order.
    pub open spec fn elems(self) -> Seq<A> {
        nodes_elems(self.0@)
    }

    /// Well-formed at depth `d`: between 1 and 4 nodes, each well-formed.
    pub open spec fn wf_at(self, d: nat) -> bool {
        1 <= self.0@.len() <= 4 && nodes_wf(self.0@, d)
    }
}

impl<A: Measurable<M>, M: Monoid> Measurable<M> for Node<A, M> {
    open spec fn measure_spec(self) -> M {
        self.mval()
    }

    fn measure(&self) -> (r: M) {
        match self {
            Node::Leaf(a) => a.measure(),
            Node::Node2(m, _, _) => *m,
            Node::Node3(m, _, _, _) => *m,
        }
    }
}

impl<A: Measurable<M>, M: Monoid> Measurable<M> for Digit<A, M> {
    open spec fn measure_spec(self) -> M {
        nodes_mval(self.0@)
    }

    fn measure(&self) -> (r: M) {
        let mut acc = M::unit();
        let mut i: usize = 0;
        proof {
            assert(self.0@.take(0) =~= Seq::<Node<A, M>>::empty());
        }
        while i < self.0.len()
            invariant
                i <= self.0.len(),
                acc == nodes_mval(self.0@.take(i as int)),
            decreases self.0.len() - i,
        {
            proof {
                assert(self.0@.take(i + 1).drop_last() =~= self.0@.take(i as int));
                assert(self.0@.take(i + 1).last() == self.0@[i as int]);
            }
            acc = acc.join(self.0[i].measure());
            i = i + 1;
        }
        proof {
            assert(self.0@.take(self.0@.len() as int) =~= self.0@);
        }
        acc
    }
}

impl<A: Measurable<M>, M: Monoid> FingerTree<A, M> {
    /// The elements of the tree, in left-to-right order.
    pub open spec fn elems(self) -> Seq<A>
        decreases self,
    {
        match self {
            FingerTree::Nil => Seq::<A>::empty(),
            FingerTree::Single(n) => n.elems(),
            FingerTree::Deep { measure: _, prefix, tree, suffix } => (prefix.elems()
                + (*tree).elems()) + suffix.elems(),
        }
    }

    /// The measure of the tree: the identity for the empty tree, the node's
    /// measure for a singleton, the cached value for a deep level.
    pub open spec fn mval(self) -> M {
        match self {
            FingerTree::Nil => M::zero(),
            FingerTree::Single(n) => n.mval(),
            FingerTree::Deep { measure, .. } => measure,
        }
    }

    /// Well-formed at spine level `d`: both digits are non-empty and
    /// well-formed, the nested tree holds nodes one level deeper, and the
    /// cached measure is the combined measure of the whole level.
    pub open spec fn wf_at(self, d: nat) -> bool
        decreases self,
    {
        match self {
            FingerTree::Nil => true,
            FingerTree::Single(n) => n.wf_at(d),
            FingerTree::Deep { measure, prefix, tree, suffix } => prefix.wf_at(d) && (*tree).wf_at(
                d + 1,
            ) && suffix.wf_at(d) && measure == mseq::<M, A>(self.elems()),
        }
    }

    /// Well-formed as a tree of elements: the top level holds leaves.
    pub open spec fn wf(self) -> bool {
        self.wf_at(0)
    }
}

impl<A: Measurable<M>, M: Monoid> FingerTree<A, M> {
    /// The empty tree.
    pub fn empty() -> (r: Self)
        ensures
            r == FingerTree::<A, M>::Nil,
            r.wf(),
            r.elems() == Seq::<A>::empty(),
    {
        FingerTree::Nil
    }

    /// The tree holding exactly one element.
    pub fn singleton(x: A) -> (r: Self)
        ensures
            r.wf(),
            r.elems() == seq![x],
    {
        FingerTree::Single(Node::Leaf(x))
    }

    /// Inserts an element at the left end.
    pub fn insert_left(self, x: A) -> (r: Self)
        requires
            self.wf(),
        ensures
            r.wf(),
            r.elems() == seq![x] + self.elems(),
    {
        ops::push_node_left(self, Node::Leaf(x), Ghost(0))
    }

    /// Inserts an element at the right end.
    pub fn insert_right(self, x: A) -> (r: Self)
        requires
            self.wf(),
        ensures
            r.wf(),
            r.elems() == self.elems().push(x),
    {
        let ghost gs = self;
        let r = ops::push_node_right(self, Node::Leaf(x), Ghost(0));
        proof {
            assert(gs.elems() + seq![x] =~= gs.elems().push(x));
        }
        r
    }

    /// Removes the leftmost element, if any; the empty tree yields no
    /// element and stays empty.
    pub fn remove_left(self) -> (r: (Self, Option<A>))
        requires
            self.wf(),
        ensures
            r.0.wf(),
            match r.1 {
                Option::None => self.elems().len() == 0 && r.0 is Nil,
                Option::Some(x) => self.elems().len() > 0 && x == self.elems().first()
                    && r.0.elems() == self.elems().drop_first(),
            },
    {
        let ghost gs = self;
        let (t, opt) = ops::pop_node_left(self, Ghost(0));
        match opt {
            Option::None => (t, None),
            Option::Some(n) => match n {
                Node::Leaf(x) => {
                    proof {
                        assert(gs.elems() == seq![x] + t.elems());
                        assert(gs.elems().first() == x);
                        assert(t.elems() =~= gs.elems().drop_first());
                    }
                    (t, Some(x))
                },
                Node::Node2(..) => vstd::pervasive::unreached(),
                Node::Node3(..) => vstd::pervasive::unreached(),
            },
        }
    }

    /// Removes the rightmost element, if any; the empty tree yields no
    /// element and stays empty.
    pub fn remove_right(self) -> (r: (Self, Option<A>))
        requires
            self.wf(),
        ensures
            r.0.wf(),
            match r.1 {
                Option::None => self.elems().len() == 0 && r.0 is Nil,
                Option::Some(x) => self.elems().len() > 0 && x == self.elems().last()
                    && r.0.elems() == self.elems().drop_last(),
            },
    {
        let ghost gs = self;
        let (t, opt) = ops::pop_node_right(self, Ghost(0));
        match opt {
            Option::None => (t, None),
            Option::Some(n) => match n {
                Node::Leaf(x) => {
                    proof {
                        assert(gs.elems() == t.elems() + seq![x]);
                        assert(gs.elems().last() == x);
                        assert(t.elems() =~= gs.elems().drop_last());
                    }
                    (t, Some(x))
                },
                Node::Node2(..) => vstd::pervasive::unreached(),
                Node::Node3(..) => vstd::pervasive::unreached(),
            },
        }
    }

    /// Concatenates two trees: the result holds the elements of `self`
    /// followed by the elements of `other`.
    pub fn append(self, other: Self) -> (r: Self)
        requires
            self.wf(),
            other.wf(),
        ensures
            r.wf(),
            r.elems() == self.elems() + other.elems(),
    {
        let ghost (gs, go) = (self, other);
        let mid: Vec<Node<A, M>> = Vec::new();
        proof {
            assert(nodes_elems(mid@) =~= Seq::<A>::empty());
        }
        let r = ops::app3(self, mid, other, Ghost(0));
        proof {
            assert((gs.elems() + Seq::<A>::empty()) + go.elems() =~= gs.elems() + go.elems());
        }
        r
    }

    /// All elements, in left-to-right order.
    pub fn elements(self) -> (r: Vec<A>)
        ensures
            r@ == self.elems(),
        decreases self,
    {
        match self {
            FingerTree::Nil => Vec::new(),
            FingerTree::Single(n) => ops::node_elems_vec(n),
            FingerTree::Deep { measure: _, prefix, tree, suffix } => {
                let mut out = ops::nodes_elems_vec(prefix.0);
                let mut m = (*tree).elements();
                out.append(&mut m);
                let mut s = ops::nodes_elems_vec(suffix.0);
                out.append(&mut s);
                out
            },
        }
    }

    /// The combined measure of all elements, read from the cache in constant
    /// time.
    pub fn measure(&self) -> (r: M)
        requires
            self.wf(),
        ensures
            r == mseq::<M, A>(self.elems()),
    {
        proof {
            ops::lemma_tree_mval(*self, 0);
        }
        ops::tree_measure(self)
    }

    /// Splits the tree at the unique boundary where the predicate on the
    /// accumulated measure of a prefix of elements turns true.
    ///
    /// The caller guarantees that the predicate is false on the identity;
    /// when it never turns true over the whole tree, the tree comes back
    /// unchanged with no element and an empty right part.
    pub fn split<P: SplitPredicate<M>>(self, p: &P) -> (r: (Self, Option<A>, Self))
        requires
            self.wf(),
            !p.test_spec(M::zero()),
        ensures
            r.0.wf(),
            r.2.wf(),
            match r.1 {
                Option::None => !p.test_spec(mseq::<M, A>(self.elems())) && r.0 == self && r.2
                    is Nil,
                Option::Some(x) => p.test_spec(mseq::<M, A>(self.elems())) && (r.0.elems()
                    + seq![x]) + r.2.elems() == self.elems() && !p.test_spec(
                    mseq::<M, A>(r.0.elems()),
                ) && p.test_spec(mseq::<M, A>(r.0.elems()).plus(x.measure_spec())),
            },
    {
        let ghost gs = self;
        let m = self.measure();
        if !p.test(m) {
            (self, None, FingerTree::Nil)
        } else {
            proof {
                if gs is Nil {
                    assert(false);
                }
                M::unit_left(mseq::<M, A>(gs.elems()));
            }
            let (l, xn, r2) = ops::split_tree_rec(self, p, M::unit(), Ghost(0));
            match xn {
                Node::Leaf(x) => {
                    proof {
                        M::unit_left(mseq::<M, A>(l.elems()));
                        lemma_mseq_singleton::<M, A>(x);
                        M::unit_left(mseq::<M, A>(l.elems()).plus(x.measure_spec()));
                    }
                    (l, Some(x), r2)
                },
                Node::Node2(..) => vstd::pervasive::unreached(),
                Node::Node3(..) => vstd::pervasive::unreached(),
            }
        }
    }
}

impl<A: Measurable<Length>> FingerTree<A, Length> {
    /// Index-based access: splits off the first `i` elements, the element at
    /// position `i`, and the rest, through the `Length` monoid and the
    /// predicate `count > i`.  An index past the end yields the tree
    /// unchanged, no element, and an empty right part.
    pub fn split_at(self, i: usize) -> (r: (Self, Option<A>, Self))
        requires
            self.wf(),
            self.elems().len() <= usize::MAX,
            forall|a: A| (#[trigger] a.measure_spec()) == Length(1),
        ensures
            r.0.wf(),
            r.2.wf(),
            i < self.elems().len() ==> match r.1 {
                Option::Some(x) => r.0.elems() == self.elems().take(i as int) && x == self.elems()[
                    i as int
                ] && r.2.elems() == self.elems().skip(i as int + 1),
                Option::None => false,
            },
            i >= self.elems().len() ==> r.1 is None && r.0 == self && r.2 is Nil,
    {
        let ghost gs = self;
        let p = CountAbove(i);
        let (l, ox, r2) = self.split(&p);
        proof {
            lemma_length_counts::<A>(gs.elems());
            let gox = ox;
            match gox {
                Option::None => {},
                Option::Some(x) => {
                    assert(l.elems().len() <= gs.elems().len());
                    lemma_length_counts::<A>(l.elems());
                    assert(l.elems().len() == i);
                    assert(l.elems() =~= gs.elems().take(i as int));
                    assert(x == gs.elems()[i as int]);
                    assert(r2.elems() =~= gs.elems().skip(i as int + 1));
                },
            }
        }
        (l, ox, r2)
    }
}

/// The operations a finger-tree-like sequence offers: emptiness, insertion
/// and removal at the right end, and concatenation on either side, each
/// specified against the sequence of elements.
pub trait FingerTreeLike<A>: Sized {
    /// The structure is well-formed.
    spec fn wf_spec(&self) -> bool;

    /// The elements held, in order.
    spec fn elems_spec(&self) -> Seq<A>;

    /// True exactly when no element is held.
    fn is_empty(&self) -> (r: bool)
        requires
            self.wf_spec(),
        ensures
            r <==> self.elems_spec().len() == 0,
    ;

    /// Inserts an element at the right end.
    fn push(self, x: A) -> (r: Self)
        requires
            self.wf_spec(),
        ensures
            r.wf_spec(),
            r.elems_spec() == self.elems_spec().push(x),
    ;

    /// Removes the element at the right end, if any.
    fn pop(self) -> (r: (Self, Option<A>))
        requires
            self.wf_spec(),
        ensures
            r.0.wf_spec(),
            match r.1 {
                Option::None => self.elems_spec().len() == 0 && r.0.elems_spec().len() == 0,
                Option::Some(x) => self.elems_spec().len() > 0 && x == self.elems_spec().last()
                    && r.0.elems_spec() == self.elems_spec().drop_last(),
            },
    ;

    /// Concatenates `other`'s elements after this structure's.
    fn append(self, other: Self) -> (r: Self)
        requires
            self.wf_spec(),
            other.wf_spec(),
        ensures
            r.wf_spec(),
            r.elems_spec() == self.elems_spec() + other.elems_spec(),
    ;

    /// Concatenates `other`'s elements before this structure's.
    fn prepend(self, other: Self) -> (r: Self)
        requires
            self.wf_spec(),
            other.wf_spec(),
        ensures
            r.wf_spec(),
            r.elems_spec() == other.elems_spec() + self.elems_spec(),
    ;
}

impl<A: Measurable<M>, M: Monoid> FingerTreeLike<A> for FingerTree<A, M> {
    open spec fn wf_spec(&self) -> bool {
        self.wf()
    }

    open spec fn elems_spec(&self) -> Seq<A> {
        self.elems()
    }

    fn is_empty(&self) -> (r: bool) {
        match self {
            FingerTree::Nil => true,
            FingerTree::Single(n) => {
                proof {
                    ops::lemma_node_elems_nonempty(*n);
                }
                false
            },
            FingerTree::Deep { measure: _, prefix, tree, suffix } => {
                proof {
                    ops::lemma_nodes_uncons(prefix.0@, 0);
                    ops::lemma_node_elems_nonempty(prefix.0@.first());
                }
                false
            },
        }
    }

    fn push(self, x: A) -> (r: Self) {
        self.insert_right(x)
    }

    fn pop(self) -> (r: (Self, Option<A>)) {
        self.remove_right()
    }

    fn append(self, other: Self) -> (r: Self) {
        self.append(other)
    }

    fn prepend(self, other: Self) -> (r: Self) {
        other.append(self)
    }
}

/// The sequence rebuilt by inserting the elements of `s` at the right end,
/// one after another, starting from nothing: the model of a loop of
/// `insert_right` calls on the empty tree.
pub open spec fn build_by_push<A>(s: Seq<A>) -> Seq<A>
    decreases s.len(),
{
    if s.len() == 0 {
        Seq::<A>::empty()
    } else {
        build_by_push(s.drop_last()).push(s.last())
    }
}

/// Inserting every element of a sequence at the right end, starting from the
/// empty tree, reproduces the sequence: together with the contracts of
/// `empty`, `insert_right` and `elements`, a tree built that way lists
/// exactly the original elements in order.
pub proof fn lemma_elements_of_pushes<A>(s: Seq<A>)
    ensures
        build_by_push(s) == s,
    decreases s.len(),
{
    if s.len() == 0 {
        assert(build_by_push(s) =~= s);
    } else {
        lemma_elements_of_pushes(s.drop_last());
        assert(build_by_push(s) =~= s);
    }
}

/// Inserting on the left and then removing on the left gives back the
/// inserted element and the original contents: with `insert_left` ensuring
/// the element sequence `[x] + s` and `remove_left` returning the first
/// element and the rest, the pair is exactly `(s, x)`.
pub proof fn lemma_insert_left_then_remove_left<A>(s: Seq<A>, x: A)
    ensures
        (seq![x] + s).len() > 0,
        (seq![x] + s).first() == x,
        (seq![x] + s).drop_first() == s,
{
    assert((seq![x] + s).drop_first() =~= s);
}

/// Concatenation of element sequences is associative: appending trees in
/// either grouping yields the same element sequence.
pub proof fn lemma_append_associative<A>(a: Seq<A>, b: Seq<A>, c: Seq<A>)
    ensures
        (a + b) + c == a + (b + c),
{
    assert((a + b) + c =~= a + (b + c));
}

} // verus!
