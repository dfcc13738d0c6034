//! Internal machinery: bridge lemmas between cached measures and element
//! sequences, and the smart constructors shared by the tree operations.
use vstd::prelude::*;

use crate::measure::lemma_mseq_app;
use crate::measure::lemma_mseq_singleton;
use crate::measure::mseq;
use crate::measure::Measurable;
use crate::measure::Monoid;
use crate::measure::SplitPredicate;
use crate::nodes_elems;
use crate::nodes_mval;
use crate::nodes_wf;
use crate::Digit;
use crate::FingerTree;
use crate::Node;

verus! {

/// A well-formed node's measure is the combined measure of its elements.
pub(crate) proof fn lemma_node_mval<A: Measurable<M>, M: Monoid>(n: Node<A, M>, d: nat)
    requires
        n.wf_at(d),
    ensures
        n.mval() == mseq::<M, A>(n.elems()),
{
    match n {
        Node::Leaf(a) => {
            lemma_mseq_singleton::<M, A>(a);
        },
        Node::Node2(..) => {},
        Node::Node3(..) => {},
    }
}

/// A node always covers at least one element.
pub(crate) proof fn lemma_node_elems_nonempty<A: Measurable<M>, M: Monoid>(n: Node<A, M>)
    ensures
        n.elems().len() >= 1,
    decreases n,
{
    match n {
        Node::Leaf(_) => {},
        Node::Node2(_, x, y) => {
            lemma_node_elems_nonempty(*x);
        },
        Node::Node3(_, x, y, z) => {
            lemma_node_elems_nonempty(*x);
        },
    }
}

/// The elements of a concatenation of runs are the concatenation of their
/// elements.
pub(crate) proof fn lemma_nodes_elems_app<A: Measurable<M>, M: Monoid>(
    s1: Seq<Node<A, M>>,
    s2: Seq<Node<A, M>>,
)
    ensures
        nodes_elems(s1 + s2) == nodes_elems(s1) + nodes_elems(s2),
    decreases s2.len(),
{
    if s2.len() == 0 {
        assert(s1 + s2 =~= s1);
        assert(nodes_elems(s1) + nodes_elems(s2) =~= nodes_elems(s1));
    } else {
        lemma_nodes_elems_app(s1, s2.drop_last());
        assert((s1 + s2).drop_last() =~= s1 + s2.drop_last());
        assert((s1 + s2).last() == s2.last());
        assert((nodes_elems(s1) + nodes_elems(s2.drop_last())) + s2.last().elems() =~= nodes_elems(
            s1,
        ) + nodes_elems(s2));
    }
}

/// The elements of a one-node run are that node's elements.
pub(crate) proof fn lemma_nodes_elems_singleton<A: Measurable<M>, M: Monoid>(n: Node<A, M>)
    ensures
        nodes_elems(seq![n]) == n.elems(),
{
    assert(seq![n].drop_last() =~= Seq::<Node<A, M>>::empty());
    assert(seq![n].last() == n);
    assert(nodes_elems(seq![n]) == nodes_elems(Seq::<Node<A, M>>::empty()) + n.elems());
    assert(Seq::<A>::empty() + n.elems() =~= n.elems());
}

/// Unfolding a run of nodes at its left end.
pub(crate) proof fn lemma_nodes_elems_first<A: Measurable<M>, M: Monoid>(s: Seq<Node<A, M>>)
    requires
        s.len() >= 1,
    ensures
        nodes_elems(s) == s.first().elems() + nodes_elems(s.drop_first()),
{
    assert(s =~= seq![s.first()] + s.drop_first());
    lemma_nodes_elems_app(seq![s.first()], s.drop_first());
    lemma_nodes_elems_singleton(s.first());
}

/// The folded measure of a run of well-formed nodes is the combined measure
/// of its elements.
pub(crate) proof fn lemma_nodes_mval<A: Measurable<M>, M: Monoid>(s: Seq<Node<A, M>>, d: nat)
    requires
        nodes_wf(s, d),
    ensures
        nodes_mval(s) == mseq::<M, A>(nodes_elems(s)),
    decreases s.len(),
{
    if s.len() == 0 {
    } else {
        assert(nodes_wf(s.drop_last(), d)) by {
            assert(forall|i: int|
                0 <= i < s.drop_last().len() ==> s.drop_last()[i] == #[trigger] s[i]);
        }
        lemma_nodes_mval(s.drop_last(), d);
        assert(s.last().wf_at(d));
        lemma_node_mval(s.last(), d);
        lemma_mseq_app::<M, A>(nodes_elems(s.drop_last()), s.last().elems());
    }
}

/// A well-formed tree's measure is the combined measure of its elements.
pub(crate) proof fn lemma_tree_mval<A: Measurable<M>, M: Monoid>(t: FingerTree<A, M>, d: nat)
    requires
        t.wf_at(d),
    ensures
        t.mval() == mseq::<M, A>(t.elems()),
{
    match t {
        FingerTree::Nil => {},
        FingerTree::Single(n) => {
            lemma_node_mval(n, d);
        },
        FingerTree::Deep { .. } => {},
    }
}

/// A one-element vector with known contents.
pub(crate) fn vec1<T>(a: T) -> (r: Vec<T>)
    ensures
        r@ == seq![a],
{
    let mut v = Vec::new();
    v.push(a);
    proof {
        assert(v@ =~= seq![a]);
    }
    v
}

/// A two-element vector with known contents.
pub(crate) fn vec2<T>(a: T, b: T) -> (r: Vec<T>)
    ensures
        r@ == seq![a, b],
{
    let mut v = Vec::new();
    v.push(a);
    v.push(b);
    proof {
        assert(v@ =~= seq![a, b]);
    }
    v
}

/// Extending a run of nodes on the left.
pub(crate) proof fn lemma_nodes_cons<A: Measurable<M>, M: Monoid>(
    n: Node<A, M>,
    s: Seq<Node<A, M>>,
    d: nat,
)
    requires
        n.wf_at(d),
        nodes_wf(s, d),
    ensures
        nodes_wf(seq![n] + s, d),
        nodes_elems(seq![n] + s) == n.elems() + nodes_elems(s),
{
    lemma_nodes_elems_app(seq![n], s);
    lemma_nodes_elems_singleton(n);
    assert forall|i: int| 0 <= i < (seq![n] + s).len() implies (#[trigger] (seq![n] + s)[i]).wf_at(
        d,
    ) by {
        if i == 0 {
            assert((seq![n] + s)[i] == n);
        } else {
            assert((seq![n] + s)[i] == s[i - 1]);
            assert(s[i - 1].wf_at(d));
        }
    }
}

/// Extending a run of nodes on the right.
pub(crate) proof fn lemma_nodes_snoc<A: Measurable<M>, M: Monoid>(
    s: Seq<Node<A, M>>,
    n: Node<A, M>,
    d: nat,
)
    requires
        nodes_wf(s, d),
        n.wf_at(d),
    ensures
        nodes_wf(s.push(n), d),
        nodes_elems(s.push(n)) == nodes_elems(s) + n.elems(),
{
    assert(s.push(n).drop_last() =~= s);
    assert(s.push(n).last() == n);
    assert forall|i: int| 0 <= i < s.push(n).len() implies (#[trigger] s.push(n)[i]).wf_at(d) by {
        if i < s.len() {
            assert(s.push(n)[i] == s[i]);
            assert(s[i].wf_at(d));
        } else {
            assert(s.push(n)[i] == n);
        }
    }
}

/// Taking the first node off a run.
pub(crate) proof fn lemma_nodes_uncons<A: Measurable<M>, M: Monoid>(s: Seq<Node<A, M>>, d: nat)
    requires
        s.len() >= 1,
        nodes_wf(s, d),
    ensures
        s.first().wf_at(d),
        nodes_wf(s.drop_first(), d),
        nodes_elems(s) == s.first().elems() + nodes_elems(s.drop_first()),
{
    lemma_nodes_elems_first(s);
    assert(s.first() == s[0]);
    assert forall|i: int| 0 <= i < s.drop_first().len() implies (#[trigger] s.drop_first()[i]).wf_at(
        d,
    ) by {
        assert(s.drop_first()[i] == s[i + 1]);
        assert(s[i + 1].wf_at(d));
    }
}

/// Taking the last node off a run.
pub(crate) proof fn lemma_nodes_unsnoc<A: Measurable<M>, M: Monoid>(s: Seq<Node<A, M>>, d: nat)
    requires
        s.len() >= 1,
        nodes_wf(s, d),
    ensures
        s.last().wf_at(d),
        nodes_wf(s.drop_last(), d),
        nodes_elems(s) == nodes_elems(s.drop_last()) + s.last().elems(),
{
    assert(s.last().wf_at(d));
    assert forall|i: int| 0 <= i < s.drop_last().len() implies (#[trigger] s.drop_last()[i]).wf_at(
        d,
    ) by {
        assert(s.drop_last()[i] == s[i]);
        assert(s[i].wf_at(d));
    }
}

/// The measure of a tree, read from the cache in constant time.
pub(crate) fn tree_measure<A: Measurable<M>, M: Monoid>(t: &FingerTree<A, M>) -> (r: M)
    ensures
        r == t.mval(),
{
    match t {
        FingerTree::Nil => M::unit(),
        FingerTree::Single(n) => n.measure(),
        FingerTree::Deep { measure, .. } => *measure,
    }
}

/// Builds a 2-way grouping, caching the combined measure of its children.
pub(crate) fn mk_node2<A: Measurable<M>, M: Monoid>(
    x: Node<A, M>,
    y: Node<A, M>,
    Ghost(d): Ghost<nat>,
) -> (r: Node<A, M>)
    requires
        x.wf_at(d),
        y.wf_at(d),
    ensures
        r.wf_at(d + 1),
        r.elems() == x.elems() + y.elems(),
{
    let m = x.measure().join(y.measure());
    proof {
        lemma_node_mval(x, d);
        lemma_node_mval(y, d);
        lemma_mseq_app::<M, A>(x.elems(), y.elems());
    }
    Node::Node2(m, Box::new(x), Box::new(y))
}

/// Builds a 3-way grouping, caching the combined measure of its children.
pub(crate) fn mk_node3<A: Measurable<M>, M: Monoid>(
    x: Node<A, M>,
    y: Node<A, M>,
    z: Node<A, M>,
    Ghost(d): Ghost<nat>,
) -> (r: Node<A, M>)
    requires
        x.wf_at(d),
        y.wf_at(d),
        z.wf_at(d),
    ensures
        r.wf_at(d + 1),
        r.elems() == (x.elems() + y.elems()) + z.elems(),
{
    let m = x.measure().join(y.measure()).join(z.measure());
    proof {
        lemma_node_mval(x, d);
        lemma_node_mval(y, d);
        lemma_node_mval(z, d);
        lemma_mseq_app::<M, A>(x.elems(), y.elems());
        lemma_mseq_app::<M, A>(x.elems() + y.elems(), z.elems());
    }
    Node::Node3(m, Box::new(x), Box::new(y), Box::new(z))
}

/// Builds a deep level, caching the combined measure of both digits and the
/// nested tree.
pub(crate) fn mk_deep<A: Measurable<M>, M: Monoid>(
    prefix: Digit<A, M>,
    tree: FingerTree<A, M>,
    suffix: Digit<A, M>,
    Ghost(d): Ghost<nat>,
) -> (r: FingerTree<A, M>)
    requires
        prefix.wf_at(d),
        tree.wf_at(d + 1),
        suffix.wf_at(d),
    ensures
        r.wf_at(d),
        r.elems() == (prefix.elems() + tree.elems()) + suffix.elems(),
{
    let m = prefix.measure().join(tree_measure(&tree)).join(suffix.measure());
    proof {
        lemma_nodes_mval(prefix.0@, d);
        lemma_tree_mval(tree, d + 1);
        lemma_nodes_mval(suffix.0@, d);
        lemma_mseq_app::<M, A>(prefix.elems(), tree.elems());
        lemma_mseq_app::<M, A>(prefix.elems() + tree.elems(), suffix.elems());
    }
    FingerTree::Deep { measure: m, prefix, tree: Box::new(tree), suffix }
}

/// Inserts a node at the left end of a level, grouping an overfull prefix
/// digit into the nested tree.
#[verifier::rlimit(100)]
pub(crate) fn push_node_left<A: Measurable<M>, M: Monoid>(
    t: FingerTree<A, M>,
    n: Node<A, M>,
    Ghost(d): Ghost<nat>,
) -> (r: FingerTree<A, M>)
    requires
        t.wf_at(d),
        n.wf_at(d),
    ensures
        r.wf_at(d),
        r.elems() == n.elems() + t.elems(),
    decreases t,
{
    let ghost gn = n;
    let ghost gt = t;
    match t {
        FingerTree::Nil => {
            proof {
                assert(gn.elems() + gt.elems() =~= gn.elems());
            }
            FingerTree::Single(n)
        },
        FingerTree::Single(m) => {
            let ghost gm = m;
            let pr = Digit(vec1(n));
            let sf = Digit(vec1(m));
            proof {
                lemma_nodes_elems_singleton(gn);
                lemma_nodes_elems_singleton(gm);
                assert(nodes_wf(seq![gn], d));
                assert(nodes_wf(seq![gm], d));
            }
            let r = mk_deep(pr, FingerTree::Nil, sf, Ghost(d));
            proof {
                assert((gn.elems() + Seq::<A>::empty()) + gm.elems() =~= gn.elems() + gt.elems());
            }
            r
        },
        FingerTree::Deep { measure: _, prefix, tree, suffix } => {
            let ghost gsf = suffix;
            let ghost gin = *tree;
            let Digit(mut v) = prefix;
            let ghost oldv = v@;
            if v.len() < 4 {
                v.insert(0, n);
                proof {
                    assert(v@ =~= seq![gn] + oldv);
                    lemma_nodes_cons(gn, oldv, d);
                }
                let r = mk_deep(Digit(v), *tree, suffix, Ghost(d));
                proof {
                    assert(((gn.elems() + nodes_elems(oldv)) + gin.elems()) + gsf.elems()
                        =~= gn.elems() + gt.elems());
                }
                r
            } else {
                let a = v.remove(0);
                let b = v.remove(0);
                let c = v.remove(0);
                let e = v.remove(0);
                let ghost (ga, gb, gc, ge) = (a, b, c, e);
                proof {
                    lemma_nodes_uncons(oldv, d);
                    assert(oldv.remove(0) =~= oldv.drop_first());
                    lemma_nodes_uncons(oldv.drop_first(), d);
                    assert(oldv.drop_first().remove(0) =~= oldv.drop_first().drop_first());
                    lemma_nodes_uncons(oldv.drop_first().drop_first(), d);
                    assert(oldv.drop_first().drop_first().remove(0)
                        =~= oldv.drop_first().drop_first().drop_first());
                    lemma_nodes_uncons(oldv.drop_first().drop_first().drop_first(), d);
                    assert(oldv.drop_first().drop_first().drop_first().drop_first()
                        =~= Seq::<Node<A, M>>::empty());
                    assert(nodes_elems(oldv) == ga.elems() + (gb.elems() + (gc.elems() + (
                    ge.elems() + Seq::<A>::empty()))));
                }
                let g = mk_node3(b, c, e, Ghost(d));
                let ghost gg = g;
                let inner = push_node_left(*tree, g, Ghost(d + 1));
                let pr = Digit(vec2(n, a));
                proof {
                    lemma_nodes_cons(ga, Seq::<Node<A, M>>::empty(), d);
                    assert(seq![ga] + Seq::<Node<A, M>>::empty() =~= seq![ga]);
                    lemma_nodes_cons(gn, seq![ga], d);
                    assert(seq![gn] + seq![ga] =~= seq![gn, ga]);
                    lemma_nodes_elems_singleton(ga);
                }
                let r = mk_deep(pr, inner, suffix, Ghost(d));
                proof {
                    assert(((gn.elems() + ga.elems()) + (gg.elems() + gin.elems())) + gsf.elems()
                        =~= gn.elems() + gt.elems());
                }
                r
            }
        },
    }
}

/// Inserts a node at the right end of a level, grouping an overfull suffix
/// digit into the nested tree.
#[verifier::rlimit(100)]
pub(crate) fn push_node_right<A: Measurable<M>, M: Monoid>(
    t: FingerTree<A, M>,
    n: Node<A, M>,
    Ghost(d): Ghost<nat>,
) -> (r: FingerTree<A, M>)
    requires
        t.wf_at(d),
        n.wf_at(d),
    ensures
        r.wf_at(d),
        r.elems() == t.elems() + n.elems(),
    decreases t,
{
    let ghost gn = n;
    let ghost gt = t;
    match t {
        FingerTree::Nil => {
            proof {
                assert(gt.elems() + gn.elems() =~= gn.elems());
            }
            FingerTree::Single(n)
        },
        FingerTree::Single(m) => {
            let ghost gm = m;
            let pr = Digit(vec1(m));
            let sf = Digit(vec1(n));
            proof {
                lemma_nodes_elems_singleton(gn);
                lemma_nodes_elems_singleton(gm);
                assert(nodes_wf(seq![gn], d));
                assert(nodes_wf(seq![gm], d));
            }
            let r = mk_deep(pr, FingerTree::Nil, sf, Ghost(d));
            proof {
                assert((gm.elems() + Seq::<A>::empty()) + gn.elems() =~= gt.elems() + gn.elems());
            }
            r
        },
        FingerTree::Deep { measure: _, prefix, tree, suffix } => {
            let ghost gpr = prefix;
            let ghost gin = *tree;
            let Digit(mut v) = suffix;
            let ghost oldv = v@;
            if v.len() < 4 {
                v.push(n);
                proof {
                    lemma_nodes_snoc(oldv, gn, d);
                }
                let r = mk_deep(prefix, *tree, Digit(v), Ghost(d));
                proof {
                    assert((gpr.elems() + gin.elems()) + (nodes_elems(oldv) + gn.elems())
                        =~= gt.elems() + gn.elems());
                }
                r
            } else {
                let a = v.remove(0);
                let b = v.remove(0);
                let c = v.remove(0);
                let e = v.remove(0);
                let ghost (ga, gb, gc, ge) = (a, b, c, e);
                proof {
                    lemma_nodes_uncons(oldv, d);
                    assert(oldv.remove(0) =~= oldv.drop_first());
                    lemma_nodes_uncons(oldv.drop_first(), d);
                    assert(oldv.drop_first().remove(0) =~= oldv.drop_first().drop_first());
                    lemma_nodes_uncons(oldv.drop_first().drop_first(), d);
                    assert(oldv.drop_first().drop_first().remove(0)
                        =~= oldv.drop_first().drop_first().drop_first());
                    lemma_nodes_uncons(oldv.drop_first().drop_first().drop_first(), d);
                    assert(oldv.drop_first().drop_first().drop_first().drop_first()
                        =~= Seq::<Node<A, M>>::empty());
                    assert(nodes_elems(oldv) == ga.elems() + (gb.elems() + (gc.elems() + (
                    ge.elems() + Seq::<A>::empty()))));
                }
                let g = mk_node3(a, b, c, Ghost(d));
                let ghost gg = g;
                let inner = push_node_right(*tree, g, Ghost(d + 1));
                let sf = Digit(vec2(e, n));
                proof {
                    lemma_nodes_cons(gn, Seq::<Node<A, M>>::empty(), d);
                    assert(seq![gn] + Seq::<Node<A, M>>::empty() =~= seq![gn]);
                    lemma_nodes_cons(ge, seq![gn], d);
                    assert(seq![ge] + seq![gn] =~= seq![ge, gn]);
                    lemma_nodes_elems_singleton(gn);
                }
                let r = mk_deep(prefix, inner, sf, Ghost(d));
                proof {
                    assert((gpr.elems() + (gin.elems() + gg.elems())) + (ge.elems() + gn.elems())
                        =~= gt.elems() + gn.elems());
                }
                r
            }
        },
    }
}

/// Ungroups a node popped from a nested tree into a digit one level up.
pub(crate) fn node_to_digit<A: Measurable<M>, M: Monoid>(n: Node<A, M>, Ghost(d): Ghost<nat>) -> (r:
    Digit<A, M>)
    requires
        n.wf_at(d),
        d >= 1,
    ensures
        r.wf_at((d - 1) as nat),
        r.elems() == n.elems(),
{
    let ghost dd = (d - 1) as nat;
    match n {
        Node::Leaf(_) => vstd::pervasive::unreached(),
        Node::Node2(_, x, y) => {
            let ghost (gx, gy) = (*x, *y);
            let r = Digit(vec2(*x, *y));
            proof {
                lemma_nodes_snoc(seq![gx], gy, dd);
                assert(seq![gx].push(gy) =~= seq![gx, gy]);
                lemma_nodes_elems_singleton(gx);
                assert(nodes_wf(seq![gx], dd));
            }
            r
        },
        Node::Node3(_, x, y, z) => {
            let ghost (gx, gy, gz) = (*x, *y, *z);
            let mut v = vec2(*x, *y);
            v.push(*z);
            let r = Digit(v);
            proof {
                lemma_nodes_elems_singleton(gx);
                assert(nodes_wf(seq![gx], dd));
                lemma_nodes_snoc(seq![gx], gy, dd);
                assert(seq![gx].push(gy) =~= seq![gx, gy]);
                lemma_nodes_snoc(seq![gx, gy], gz, dd);
                assert(seq![gx, gy].push(gz) =~= seq![gx, gy, gz]);
            }
            r
        },
    }
}

/// Rebuilds a tree from a single digit, used when a deep level collapses.
pub(crate) fn tree_from_digit<A: Measurable<M>, M: Monoid>(
    dg: Digit<A, M>,
    Ghost(d): Ghost<nat>,
) -> (r: FingerTree<A, M>)
    requires
        dg.wf_at(d),
    ensures
        r.wf_at(d),
        r.elems() == dg.elems(),
{
    let ghost gdg = dg;
    let Digit(mut v) = dg;
    let ghost oldv = v@;
    let a = v.remove(0);
    let ghost ga = a;
    proof {
        lemma_nodes_uncons(oldv, d);
        assert(oldv.remove(0) =~= oldv.drop_first());
    }
    if v.len() == 0 {
        proof {
            assert(gdg.elems() =~= ga.elems());
        }
        FingerTree::Single(a)
    } else {
        let pr = Digit(vec1(a));
        proof {
            lemma_nodes_elems_singleton(ga);
            assert(nodes_wf(seq![ga], d));
        }
        let r = mk_deep(pr, FingerTree::Nil, Digit(v), Ghost(d));
        proof {
            assert((ga.elems() + Seq::<A>::empty()) + nodes_elems(oldv.drop_first())
                =~= gdg.elems());
        }
        r
    }
}

/// Rebuilds a tree from up to four nodes, used when a split leaves a short
/// remainder.
pub(crate) fn tree_from_nodes<A: Measurable<M>, M: Monoid>(
    v: Vec<Node<A, M>>,
    Ghost(d): Ghost<nat>,
) -> (r: FingerTree<A, M>)
    requires
        v@.len() <= 4,
        nodes_wf(v@, d),
    ensures
        r.wf_at(d),
        r.elems() == nodes_elems(v@),
{
    if v.len() == 0 {
        proof {
            assert(nodes_elems(v@) =~= Seq::<A>::empty());
        }
        FingerTree::Nil
    } else {
        tree_from_digit(Digit(v), Ghost(d))
    }
}

/// Removes the leftmost node of a level, borrowing from the nested tree when
/// the prefix digit would empty, and collapsing when the nested tree is
/// itself empty.
pub(crate) fn pop_node_left<A: Measurable<M>, M: Monoid>(
    t: FingerTree<A, M>,
    Ghost(d): Ghost<nat>,
) -> (r: (FingerTree<A, M>, Option<Node<A, M>>))
    requires
        t.wf_at(d),
    ensures
        r.0.wf_at(d),
        match r.1 {
            Option::None => t is Nil && r.0 is Nil,
            Option::Some(n) => n.wf_at(d) && t.elems() == n.elems() + r.0.elems(),
        },
    decreases t,
{
    let ghost gt = t;
    match t {
        FingerTree::Nil => (FingerTree::Nil, None),
        FingerTree::Single(n) => {
            proof {
                assert(gt.elems() =~= n.elems() + Seq::<A>::empty());
            }
            (FingerTree::Nil, Some(n))
        },
        FingerTree::Deep { measure: _, prefix, tree, suffix } => {
            let ghost gsf = suffix;
            let ghost gin = *tree;
            let Digit(mut v) = prefix;
            let ghost oldv = v@;
            let n = v.remove(0);
            let ghost gn = n;
            proof {
                lemma_nodes_uncons(oldv, d);
                assert(oldv.remove(0) =~= oldv.drop_first());
            }
            if v.len() > 0 {
                let r0 = mk_deep(Digit(v), *tree, suffix, Ghost(d));
                proof {
                    assert(gt.elems() =~= gn.elems() + ((nodes_elems(oldv.drop_first())
                        + gin.elems()) + gsf.elems()));
                }
                (r0, Some(n))
            } else {
                proof {
                    assert(nodes_elems(oldv.drop_first()) =~= Seq::<A>::empty());
                }
                let (inner2, opt) = pop_node_left(*tree, Ghost(d + 1));
                match opt {
                    Option::Some(m) => {
                        let ghost (gm, gin2) = (m, inner2);
                        let pr = node_to_digit(m, Ghost(d + 1));
                        let r0 = mk_deep(pr, inner2, suffix, Ghost(d));
                        proof {
                            assert(gt.elems() =~= gn.elems() + ((gm.elems() + gin2.elems())
                                + gsf.elems()));
                        }
                        (r0, Some(n))
                    },
                    Option::None => {
                        let r0 = tree_from_digit(suffix, Ghost(d));
                        proof {
                            assert(gt.elems() =~= gn.elems() + gsf.elems());
                        }
                        (r0, Some(n))
                    },
                }
            }
        },
    }
}

/// Removes the rightmost node of a level, the mirror of `pop_node_left`.
pub(crate) fn pop_node_right<A: Measurable<M>, M: Monoid>(
    t: FingerTree<A, M>,
    Ghost(d): Ghost<nat>,
) -> (r: (FingerTree<A, M>, Option<Node<A, M>>))
    requires
        t.wf_at(d),
    ensures
        r.0.wf_at(d),
        match r.1 {
            Option::None => t is Nil && r.0 is Nil,
            Option::Some(n) => n.wf_at(d) && t.elems() == r.0.elems() + n.elems(),
        },
    decreases t,
{
    let ghost gt = t;
    match t {
        FingerTree::Nil => (FingerTree::Nil, None),
        FingerTree::Single(n) => {
            proof {
                assert(gt.elems() =~= Seq::<A>::empty() + n.elems());
            }
            (FingerTree::Nil, Some(n))
        },
        FingerTree::Deep { measure: _, prefix, tree, suffix } => {
            let ghost gpr = prefix;
            let ghost gin = *tree;
            let Digit(mut v) = suffix;
            let ghost oldv = v@;
            let n = match v.pop() {
                Some(x) => x,
                None => vstd::pervasive::unreached(),
            };
            let ghost gn = n;
            proof {
                lemma_nodes_unsnoc(oldv, d);
            }
            if v.len() > 0 {
                let r0 = mk_deep(prefix, *tree, Digit(v), Ghost(d));
                proof {
                    assert(gt.elems() =~= ((gpr.elems() + gin.elems()) + nodes_elems(
                        oldv.drop_last(),
                    )) + gn.elems());
                }
                (r0, Some(n))
            } else {
                proof {
                    assert(nodes_elems(oldv.drop_last()) =~= Seq::<A>::empty());
                }
                let (inner2, opt) = pop_node_right(*tree, Ghost(d + 1));
                match opt {
                    Option::Some(m) => {
                        let ghost (gm, gin2) = (m, inner2);
                        let sf = node_to_digit(m, Ghost(d + 1));
                        let r0 = mk_deep(prefix, inner2, sf, Ghost(d));
                        proof {
                            assert(gt.elems() =~= ((gpr.elems() + gin2.elems()) + gm.elems())
                                + gn.elems());
                        }
                        (r0, Some(n))
                    },
                    Option::None => {
                        let r0 = tree_from_digit(prefix, Ghost(d));
                        proof {
                            assert(gt.elems() =~= gpr.elems() + gn.elems());
                        }
                        (r0, Some(n))
                    },
                }
            }
        },
    }
}

/// Concatenating well-formed runs of nodes keeps them well-formed.
pub(crate) proof fn lemma_nodes_wf_app<A: Measurable<M>, M: Monoid>(
    s1: Seq<Node<A, M>>,
    s2: Seq<Node<A, M>>,
    d: nat,
)
    requires
        nodes_wf(s1, d),
        nodes_wf(s2, d),
    ensures
        nodes_wf(s1 + s2, d),
{
    assert forall|i: int| 0 <= i < (s1 + s2).len() implies (#[trigger] (s1 + s2)[i]).wf_at(d) by {
        if i < s1.len() {
            assert((s1 + s2)[i] == s1[i]);
            assert(s1[i].wf_at(d));
        } else {
            assert((s1 + s2)[i] == s2[i - s1.len()]);
            assert(s2[i - s1.len()].wf_at(d));
        }
    }
}

/// The elements under one node, as a vector.
pub(crate) fn node_elems_vec<A: Measurable<M>, M: Monoid>(n: Node<A, M>) -> (r: Vec<A>)
    ensures
        r@ == n.elems(),
    decreases n,
{
    match n {
        Node::Leaf(a) => vec1(a),
        Node::Node2(_, x, y) => {
            let mut v = node_elems_vec(*x);
            let mut w = node_elems_vec(*y);
            v.append(&mut w);
            v
        },
        Node::Node3(_, x, y, z) => {
            let mut v = node_elems_vec(*x);
            let mut w = node_elems_vec(*y);
            v.append(&mut w);
            let mut u = node_elems_vec(*z);
            v.append(&mut u);
            v
        },
    }
}

/// The elements under a run of nodes, as a vector.
pub(crate) fn nodes_elems_vec<A: Measurable<M>, M: Monoid>(v: Vec<Node<A, M>>) -> (r: Vec<A>)
    ensures
        r@ == nodes_elems(v@),
{
    let ghost v0 = v@;
    let mut v = v;
    let mut out: Vec<A> = Vec::new();
    proof {
        assert(out@ + nodes_elems(v@) =~= nodes_elems(v0));
    }
    while v.len() > 0
        invariant
            out@ + nodes_elems(v@) == nodes_elems(v0),
        decreases v.len(),
    {
        let ghost prev = v@;
        let ghost prev_out = out@;
        let n = v.remove(0);
        let mut w = node_elems_vec(n);
        out.append(&mut w);
        proof {
            lemma_nodes_elems_first(prev);
            assert(prev.remove(0) =~= prev.drop_first());
            assert(out@ + nodes_elems(v@) =~= (prev_out + nodes_elems(prev)) + Seq::<A>::empty());
            assert((prev_out + nodes_elems(prev)) + Seq::<A>::empty() =~= nodes_elems(v0));
        }
    }
    proof {
        assert(nodes_elems(v@) =~= Seq::<A>::empty());
        assert(out@ =~= nodes_elems(v0));
    }
    out
}

/// Regroups between 2 and 12 nodes into 2- and 3-way groupings one level up,
/// greedily: at most four groups come out.
#[verifier::rlimit(100)]
pub(crate) fn group_nodes<A: Measurable<M>, M: Monoid>(v: Vec<Node<A, M>>, Ghost(d): Ghost<nat>) -> (r:
    Vec<Node<A, M>>)
    requires
        2 <= v@.len() <= 12,
        nodes_wf(v@, d),
    ensures
        nodes_wf(r@, d + 1),
        nodes_elems(r@) == nodes_elems(v@),
        1 <= r@.len(),
        3 * r@.len() <= v@.len() + 2,
    decreases v@.len(),
{
    let ghost v0 = v@;
    let mut v = v;
    let a = v.remove(0);
    let b = v.remove(0);
    let ghost (ga, gb) = (a, b);
    proof {
        lemma_nodes_uncons(v0, d);
        assert(v0.remove(0) =~= v0.drop_first());
        lemma_nodes_uncons(v0.drop_first(), d);
        assert(v0.drop_first().remove(0) =~= v0.drop_first().drop_first());
    }
    let ghost v2 = v0.drop_first().drop_first();
    if v.len() == 0 {
        let g = mk_node2(a, b, Ghost(d));
        let r = vec1(g);
        proof {
            lemma_nodes_elems_singleton(g);
            assert(nodes_wf(seq![g], d + 1));
            assert(nodes_elems(v2) =~= Seq::<A>::empty());
            assert(nodes_elems(r@) =~= nodes_elems(v0));
        }
        r
    } else if v.len() == 1 {
        let c = v.remove(0);
        let ghost gc = c;
        proof {
            lemma_nodes_uncons(v2, d);
        }
        let g = mk_node3(a, b, c, Ghost(d));
        let r = vec1(g);
        proof {
            lemma_nodes_elems_singleton(g);
            assert(nodes_wf(seq![g], d + 1));
            assert(nodes_elems(v2.drop_first()) =~= Seq::<A>::empty());
            assert(nodes_elems(r@) =~= nodes_elems(v0));
        }
        r
    } else if v.len() == 2 {
        let c = v.remove(0);
        let e = v.remove(0);
        let ghost (gc, ge) = (c, e);
        proof {
            lemma_nodes_uncons(v2, d);
            assert(v2.remove(0) =~= v2.drop_first());
            lemma_nodes_uncons(v2.drop_first(), d);
        }
        let g1 = mk_node2(a, b, Ghost(d));
        let g2 = mk_node2(c, e, Ghost(d));
        let r = vec2(g1, g2);
        proof {
            lemma_nodes_elems_singleton(g1);
            assert(nodes_wf(seq![g1], d + 1));
            lemma_nodes_snoc(seq![g1], g2, d + 1);
            assert(seq![g1].push(g2) =~= seq![g1, g2]);
            assert(nodes_elems(v2.drop_first().drop_first()) =~= Seq::<A>::empty());
            assert(nodes_elems(r@) =~= nodes_elems(v0));
        }
        r
    } else {
        let c = v.remove(0);
        let ghost gc = c;
        proof {
            lemma_nodes_uncons(v2, d);
            assert(v2.remove(0) =~= v2.drop_first());
        }
        let g = mk_node3(a, b, c, Ghost(d));
        let mut rest = group_nodes(v, Ghost(d));
        let ghost grest = rest@;
        rest.insert(0, g);
        proof {
            assert(rest@ =~= seq![g] + grest);
            lemma_nodes_cons(g, grest, d + 1);
            assert(nodes_elems(rest@) =~= nodes_elems(v0));
        }
        rest
    }
}

/// Concatenates two levels around a run of loose middle nodes: the canonical
/// three-way merge of append.
#[verifier::rlimit(100)]
pub(crate) fn app3<A: Measurable<M>, M: Monoid>(
    t1: FingerTree<A, M>,
    mid: Vec<Node<A, M>>,
    t2: FingerTree<A, M>,
    Ghost(d): Ghost<nat>,
) -> (r: FingerTree<A, M>)
    requires
        t1.wf_at(d),
        t2.wf_at(d),
        nodes_wf(mid@, d),
        mid@.len() <= 4,
    ensures
        r.wf_at(d),
        r.elems() == (t1.elems() + nodes_elems(mid@)) + t2.elems(),
    decreases t1,
{
    let ghost (gt1, gmid, gt2) = (t1, mid@, t2);
    match (t1, t2) {
        (FingerTree::Nil, t2) => {
            let r = push_mid_left(mid, t2, Ghost(d));
            proof {
                assert((gt1.elems() + nodes_elems(gmid)) + gt2.elems() =~= nodes_elems(gmid)
                    + gt2.elems());
            }
            r
        },
        (FingerTree::Single(n1), t2) => {
            let acc = push_mid_left(mid, t2, Ghost(d));
            let r = push_node_left(acc, n1, Ghost(d));
            proof {
                assert(n1.elems() + (nodes_elems(gmid) + gt2.elems()) =~= (gt1.elems()
                    + nodes_elems(gmid)) + gt2.elems());
            }
            r
        },
        (t1, FingerTree::Nil) => {
            let r = push_mid_right(t1, mid, Ghost(d));
            proof {
                assert(gt1.elems() + nodes_elems(gmid) =~= (gt1.elems() + nodes_elems(gmid))
                    + gt2.elems());
            }
            r
        },
        (t1, FingerTree::Single(n2)) => {
            let acc = push_mid_right(t1, mid, Ghost(d));
            let r = push_node_right(acc, n2, Ghost(d));
            proof {
                assert((gt1.elems() + nodes_elems(gmid)) + n2.elems() =~= (gt1.elems()
                    + nodes_elems(gmid)) + gt2.elems());
            }
            r
        },
        (
            FingerTree::Deep { measure: _, prefix: pr1, tree: in1, suffix: sf1 },
            FingerTree::Deep { measure: _, prefix: pr2, tree: in2, suffix: sf2 },
        ) => {
            let ghost (gpr1, gin1, gsf1) = (pr1, *in1, sf1);
            let ghost (gpr2, gin2, gsf2) = (pr2, *in2, sf2);
            let Digit(mut g) = sf1;
            let mut mid = mid;
            let Digit(mut front2) = pr2;
            g.append(&mut mid);
            g.append(&mut front2);
            proof {
                lemma_nodes_wf_app(gsf1.0@, gmid, d);
                lemma_nodes_wf_app(gsf1.0@ + gmid, gpr2.0@, d);
                lemma_nodes_elems_app(gsf1.0@, gmid);
                lemma_nodes_elems_app(gsf1.0@ + gmid, gpr2.0@);
            }
            let packed = group_nodes(g, Ghost(d));
            let inner = app3(*in1, packed, *in2, Ghost(d + 1));
            let r = mk_deep(pr1, inner, sf2, Ghost(d));
            proof {
                assert((gpr1.elems() + ((gin1.elems() + ((gsf1.elems() + nodes_elems(gmid))
                    + gpr2.elems())) + gin2.elems())) + gsf2.elems() =~= (gt1.elems()
                    + nodes_elems(gmid)) + gt2.elems());
            }
            r
        },
    }
}

/// Pushes a run of loose nodes, in order, onto the left end of a tree.
pub(crate) fn push_mid_left<A: Measurable<M>, M: Monoid>(
    mid: Vec<Node<A, M>>,
    t: FingerTree<A, M>,
    Ghost(d): Ghost<nat>,
) -> (r: FingerTree<A, M>)
    requires
        t.wf_at(d),
        nodes_wf(mid@, d),
    ensures
        r.wf_at(d),
        r.elems() == nodes_elems(mid@) + t.elems(),
{
    let ghost (gmid, gt) = (mid@, t);
    let mut v = mid;
    let mut acc = t;
    while v.len() > 0
        invariant
            acc.wf_at(d),
            nodes_wf(v@, d),
            nodes_elems(v@) + acc.elems() == nodes_elems(gmid) + gt.elems(),
        decreases v.len(),
    {
        let ghost prev = v@;
        let ghost prev_acc = acc;
        let n = match v.pop() {
            Some(x) => x,
            None => vstd::pervasive::unreached(),
        };
        proof {
            lemma_nodes_unsnoc(prev, d);
        }
        acc = push_node_left(acc, n, Ghost(d));
        proof {
            assert(nodes_elems(v@) + acc.elems() =~= nodes_elems(prev) + prev_acc.elems());
        }
    }
    proof {
        assert(nodes_elems(v@) =~= Seq::<A>::empty());
        assert(acc.elems() =~= nodes_elems(v@) + acc.elems());
    }
    acc
}

/// Pushes a run of loose nodes, in order, onto the right end of a tree.
pub(crate) fn push_mid_right<A: Measurable<M>, M: Monoid>(
    t: FingerTree<A, M>,
    mid: Vec<Node<A, M>>,
    Ghost(d): Ghost<nat>,
) -> (r: FingerTree<A, M>)
    requires
        t.wf_at(d),
        nodes_wf(mid@, d),
    ensures
        r.wf_at(d),
        r.elems() == t.elems() + nodes_elems(mid@),
{
    let ghost (gmid, gt) = (mid@, t);
    let mut v = mid;
    let mut acc = t;
    while v.len() > 0
        invariant
            acc.wf_at(d),
            nodes_wf(v@, d),
            acc.elems() + nodes_elems(v@) == gt.elems() + nodes_elems(gmid),
        decreases v.len(),
    {
        let ghost prev = v@;
        let ghost prev_acc = acc;
        let n = v.remove(0);
        proof {
            lemma_nodes_uncons(prev, d);
            assert(prev.remove(0) =~= prev.drop_first());
        }
        acc = push_node_right(acc, n, Ghost(d));
        proof {
            assert(acc.elems() + nodes_elems(v@) =~= prev_acc.elems() + nodes_elems(prev));
        }
    }
    proof {
        assert(nodes_elems(v@) =~= Seq::<A>::empty());
        assert(acc.elems() =~= acc.elems() + nodes_elems(v@));
    }
    acc
}

/// Builds a deep level whose prefix nodes may have run out, borrowing from
/// the nested tree or collapsing into the suffix.
pub(crate) fn deep_l<A: Measurable<M>, M: Monoid>(
    pr_nodes: Vec<Node<A, M>>,
    t: FingerTree<A, M>,
    sf: Digit<A, M>,
    Ghost(d): Ghost<nat>,
) -> (r: FingerTree<A, M>)
    requires
        pr_nodes@.len() <= 4,
        nodes_wf(pr_nodes@, d),
        t.wf_at(d + 1),
        sf.wf_at(d),
    ensures
        r.wf_at(d),
        r.elems() == (nodes_elems(pr_nodes@) + t.elems()) + sf.elems(),
{
    let ghost (gpn, gt, gsf) = (pr_nodes@, t, sf);
    if pr_nodes.len() > 0 {
        mk_deep(Digit(pr_nodes), t, sf, Ghost(d))
    } else {
        proof {
            assert(nodes_elems(gpn) =~= Seq::<A>::empty());
        }
        let (t2, opt) = pop_node_left(t, Ghost(d + 1));
        match opt {
            Option::Some(n) => {
                let ghost (gn, gt2) = (n, t2);
                let pr = node_to_digit(n, Ghost(d + 1));
                let r = mk_deep(pr, t2, sf, Ghost(d));
                proof {
                    assert((gn.elems() + gt2.elems()) + gsf.elems() =~= (nodes_elems(gpn)
                        + gt.elems()) + gsf.elems());
                }
                r
            },
            Option::None => {
                let r = tree_from_digit(sf, Ghost(d));
                proof {
                    assert(gsf.elems() =~= (nodes_elems(gpn) + gt.elems()) + gsf.elems());
                }
                r
            },
        }
    }
}

/// Builds a deep level whose suffix nodes may have run out, the mirror of
/// `deep_l`.
pub(crate) fn deep_r<A: Measurable<M>, M: Monoid>(
    pr: Digit<A, M>,
    t: FingerTree<A, M>,
    sf_nodes: Vec<Node<A, M>>,
    Ghost(d): Ghost<nat>,
) -> (r: FingerTree<A, M>)
    requires
        pr.wf_at(d),
        t.wf_at(d + 1),
        sf_nodes@.len() <= 4,
        nodes_wf(sf_nodes@, d),
    ensures
        r.wf_at(d),
        r.elems() == (pr.elems() + t.elems()) + nodes_elems(sf_nodes@),
{
    let ghost (gpr, gt, gsn) = (pr, t, sf_nodes@);
    if sf_nodes.len() > 0 {
        mk_deep(pr, t, Digit(sf_nodes), Ghost(d))
    } else {
        proof {
            assert(nodes_elems(gsn) =~= Seq::<A>::empty());
        }
        let (t2, opt) = pop_node_right(t, Ghost(d + 1));
        match opt {
            Option::Some(n) => {
                let ghost (gn, gt2) = (n, t2);
                let sf = node_to_digit(n, Ghost(d + 1));
                let r = mk_deep(pr, t2, sf, Ghost(d));
                proof {
                    assert((gpr.elems() + gt2.elems()) + gn.elems() =~= (gpr.elems() + gt.elems())
                        + nodes_elems(gsn));
                }
                r
            },
            Option::None => {
                let r = tree_from_digit(pr, Ghost(d));
                proof {
                    assert(gpr.elems() =~= (gpr.elems() + gt.elems()) + nodes_elems(gsn));
                }
                r
            },
        }
    }
}

/// Rewrites an accumulated measure across a concatenation.
pub(crate) proof fn lemma_acc_split<A: Measurable<M>, M: Monoid>(i: M, s1: Seq<A>, s2: Seq<A>)
    ensures
        i.plus(mseq::<M, A>(s1 + s2)) == i.plus(mseq::<M, A>(s1)).plus(mseq::<M, A>(s2)),
{
    lemma_mseq_app::<M, A>(s1, s2);
    M::assoc(i, mseq::<M, A>(s1), mseq::<M, A>(s2));
}

/// Splits a run of nodes at the first node where the predicate fires on the
/// accumulated measure, starting from `i`.
pub(crate) fn split_digit<A: Measurable<M>, M: Monoid, P: SplitPredicate<M>>(
    v: Vec<Node<A, M>>,
    p: &P,
    i: M,
    Ghost(d): Ghost<nat>,
) -> (r: (Vec<Node<A, M>>, Node<A, M>, Vec<Node<A, M>>))
    requires
        v@.len() >= 1,
        nodes_wf(v@, d),
        !p.test_spec(i),
        p.test_spec(i.plus(mseq::<M, A>(nodes_elems(v@)))),
    ensures
        nodes_wf(r.0@, d),
        r.1.wf_at(d),
        nodes_wf(r.2@, d),
        (r.0@ + seq![r.1]) + r.2@ == v@,
        !p.test_spec(i.plus(mseq::<M, A>(nodes_elems(r.0@)))),
        p.test_spec(i.plus(mseq::<M, A>(nodes_elems(r.0@))).plus(mseq::<M, A>(r.1.elems()))),
    decreases v@.len(),
{
    let ghost v0 = v@;
    let mut v = v;
    let x = v.remove(0);
    let ghost gx = x;
    proof {
        lemma_nodes_uncons(v0, d);
        assert(v0.remove(0) =~= v0.drop_first());
        M::unit_right(i);
        assert(nodes_elems(Seq::<Node<A, M>>::empty()) =~= Seq::<A>::empty());
    }
    if v.len() == 0 {
        let before: Vec<Node<A, M>> = Vec::new();
        proof {
            assert((before@ + seq![gx]) + v@ =~= v0);
            assert(nodes_elems(v0.drop_first()) =~= Seq::<A>::empty());
            assert(nodes_elems(v0) =~= gx.elems());
        }
        (before, x, v)
    } else {
        let mx = x.measure();
        proof {
            lemma_node_mval(gx, d);
        }
        let ni = i.join(mx);
        if p.test(ni) {
            let before: Vec<Node<A, M>> = Vec::new();
            proof {
                assert((before@ + seq![gx]) + v@ =~= v0);
            }
            (before, x, v)
        } else {
            proof {
                lemma_acc_split(i, gx.elems(), nodes_elems(v0.drop_first()));
            }
            let (mut before, y, after) = split_digit(v, p, ni, Ghost(d));
            let ghost gbefore = before@;
            before.insert(0, x);
            proof {
                assert(before@ =~= seq![gx] + gbefore);
                lemma_nodes_cons(gx, gbefore, d);
                assert(v0 =~= seq![gx] + v0.drop_first());
                assert((before@ + seq![y]) + after@ =~= v0);
                lemma_acc_split(i, gx.elems(), nodes_elems(gbefore));
            }
            (before, y, after)
        }
    }
}

/// Descends into the one component that contains the split point, rebuilding
/// the untouched remainder on each side.
#[verifier::rlimit(100)]
pub(crate) fn split_tree_rec<A: Measurable<M>, M: Monoid, P: SplitPredicate<M>>(
    t: FingerTree<A, M>,
    p: &P,
    i: M,
    Ghost(d): Ghost<nat>,
) -> (r: (FingerTree<A, M>, Node<A, M>, FingerTree<A, M>))
    requires
        t.wf_at(d),
        !(t is Nil),
        !p.test_spec(i),
        p.test_spec(i.plus(mseq::<M, A>(t.elems()))),
    ensures
        r.0.wf_at(d),
        r.1.wf_at(d),
        r.2.wf_at(d),
        (r.0.elems() + r.1.elems()) + r.2.elems() == t.elems(),
        !p.test_spec(i.plus(mseq::<M, A>(r.0.elems()))),
        p.test_spec(i.plus(mseq::<M, A>(r.0.elems())).plus(mseq::<M, A>(r.1.elems()))),
    decreases t,
{
    let ghost gt = t;
    match t {
        FingerTree::Nil => vstd::pervasive::unreached(),
        FingerTree::Single(n) => {
            proof {
                M::unit_right(i);
                assert((Seq::<A>::empty() + n.elems()) + Seq::<A>::empty() =~= gt.elems());
            }
            (FingerTree::Nil, n, FingerTree::Nil)
        },
        FingerTree::Deep { measure: _, prefix, tree, suffix } => {
            let ghost (gpr, gin, gsf) = (prefix, *tree, suffix);
            let ghost pm = mseq::<M, A>(gpr.elems());
            let ghost im = mseq::<M, A>(gin.elems());
            let ghost sm = mseq::<M, A>(gsf.elems());
            let pr_m = prefix.measure();
            proof {
                lemma_nodes_mval(gpr.0@, d);
            }
            let vpr = i.join(pr_m);
            if p.test(vpr) {
                let ghost pr0 = prefix.0@;
                let (before, x, after) = split_digit(prefix.0, p, i, Ghost(d));
                let ghost (gb, gx, ga) = (before@, x, after@);
                proof {
                    assert(gb.len() <= 4 && ga.len() <= 4);
                    lemma_nodes_elems_app(gb + seq![gx], ga);
                    lemma_nodes_elems_app(gb, seq![gx]);
                    lemma_nodes_elems_singleton(gx);
                }
                let l = tree_from_nodes(before, Ghost(d));
                let r2 = deep_l(after, *tree, suffix, Ghost(d));
                proof {
                    assert((nodes_elems(gb) + gx.elems()) + ((nodes_elems(ga) + gin.elems())
                        + gsf.elems()) =~= gt.elems());
                }
                (l, x, r2)
            } else {
                let in_m = tree_measure(&*tree);
                proof {
                    lemma_tree_mval(gin, d + 1);
                }
                let vm = vpr.join(in_m);
                if p.test(vm) {
                    proof {
                        if gin is Nil {
                            M::unit_right(vpr);
                            assert(false);
                        }
                    }
                    let (ml, xs, mr) = split_tree_rec(*tree, p, vpr, Ghost(d + 1));
                    let ghost (gml, gxs, gmr) = (ml, xs, mr);
                    let ml_m = tree_measure(&ml);
                    proof {
                        lemma_tree_mval(gml, d + 1);
                    }
                    let vml = vpr.join(ml_m);
                    let xd = node_to_digit(xs, Ghost(d + 1));
                    let ghost xd0 = xd.0@;
                    let (before, x, after) = split_digit(xd.0, p, vml, Ghost(d));
                    let ghost (gb, gx, ga) = (before@, x, after@);
                    proof {
                        assert(gb.len() <= 4 && ga.len() <= 4);
                        lemma_nodes_elems_app(gb + seq![gx], ga);
                        lemma_nodes_elems_app(gb, seq![gx]);
                        lemma_nodes_elems_singleton(gx);
                    }
                    let l = deep_r(prefix, ml, before, Ghost(d));
                    let r2 = deep_l(after, mr, suffix, Ghost(d));
                    proof {
                        // The accumulated measure at the left part equals the
                        // digit-level accumulator handed to the digit split.
                        let b = nodes_elems(gb);
                        lemma_mseq_app::<M, A>(gpr.elems(), gml.elems());
                        lemma_mseq_app::<M, A>(gpr.elems() + gml.elems(), b);
                        M::assoc(i, pm, mseq::<M, A>(gml.elems()));
                        M::assoc(i, pm.plus(mseq::<M, A>(gml.elems())), mseq::<M, A>(b));
                        assert(l.elems() == (gpr.elems() + gml.elems()) + b);
                        assert(i.plus(mseq::<M, A>(l.elems())) == vml.plus(mseq::<M, A>(b)));
                        // The three pieces of the level recombine to its
                        // element sequence.
                        assert((l.elems() + gx.elems()) + r2.elems() =~= gt.elems());
                    }
                    (l, x, r2)
                } else {
                    proof {
                        lemma_mseq_app::<M, A>(gpr.elems(), gin.elems());
                        lemma_mseq_app::<M, A>(gpr.elems() + gin.elems(), gsf.elems());
                        M::assoc(i, pm, im);
                        M::assoc(i, pm.plus(im), sm);
                        assert(gt.elems() == (gpr.elems() + gin.elems()) + gsf.elems());
                        assert(i.plus(mseq::<M, A>(gt.elems())) == vm.plus(sm));
                    }
                    let ghost sf0 = suffix.0@;
                    let (before, x, after) = split_digit(suffix.0, p, vm, Ghost(d));
                    let ghost (gb, gx, ga) = (before@, x, after@);
                    proof {
                        assert(gb.len() <= 4 && ga.len() <= 4);
                        lemma_nodes_elems_app(gb + seq![gx], ga);
                        lemma_nodes_elems_app(gb, seq![gx]);
                        lemma_nodes_elems_singleton(gx);
                    }
                    let l = deep_r(prefix, *tree, before, Ghost(d));
                    let r2 = tree_from_nodes(after, Ghost(d));
                    proof {
                        let b = nodes_elems(gb);
                        lemma_mseq_app::<M, A>(gpr.elems(), gin.elems());
                        lemma_mseq_app::<M, A>(gpr.elems() + gin.elems(), b);
                        M::assoc(i, pm.plus(im), mseq::<M, A>(b));
                        assert(l.elems() == (gpr.elems() + gin.elems()) + b);
                        assert(i.plus(mseq::<M, A>(l.elems())) == vm.plus(mseq::<M, A>(b)));
                        assert((l.elems() + gx.elems()) + r2.elems() =~= gt.elems());
                    }
                    (l, x, r2)
                }
            }
        },
    }
}

} // verus!
