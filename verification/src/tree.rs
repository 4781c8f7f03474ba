//! The mathematical model of a list decision diagram.
//!
//! A [`Tree`] is the unfolding of a diagram node into a term. The set of
//! vectors that a term stands for is given by [`contains`] and [`denote`], and
//! [`canonical`] states the shape that every stored diagram has. The lemmas of
//! this module relate the shape of a canonical term to the set it denotes;
//! the strongest of them, [`lemma_canonical_unique`], says that a canonical
//! term is determined by its set.

use vstd::prelude::*;

verus! {

/// A vector of values, the element type of the sets that diagrams represent.
pub type Vector = Seq<u32>;

/// The term that a diagram node unfolds to.
pub enum Tree {
    /// The empty set.
    False,
    /// The set that holds only the empty vector.
    True,
    /// `Node(value, down, right)`: the vectors of `down` with `value` put in
    /// front, together with the vectors of `right`.
    Node(u32, Box<Tree>, Box<Tree>),
}

impl Tree {
    /// The value of a node; zero for the two constants.
    pub open spec fn value(self) -> u32 {
        match self {
            Tree::Node(v, _, _) => v,
            _ => 0,
        }
    }

    /// The subterm below a node; the term itself for the two constants.
    pub open spec fn down(self) -> Tree {
        match self {
            Tree::Node(_, d, _) => *d,
            _ => self,
        }
    }

    /// The subterm to the right of a node; the term itself for the two constants.
    pub open spec fn right(self) -> Tree {
        match self {
            Tree::Node(_, _, r) => *r,
            _ => self,
        }
    }
}

/// Builds the term `node(value, down, right)`.
pub open spec fn node(value: u32, down: Tree, right: Tree) -> Tree {
    Tree::Node(value, Box::new(down), Box::new(right))
}

/// Whether the vector `x` belongs to the set that `t` stands for.
pub open spec fn contains(t: Tree, x: Vector) -> bool
    decreases t,
{
    match t {
        Tree::False => false,
        Tree::True => x.len() == 0,
        Tree::Node(v, d, r) => (x.len() > 0 && x[0] == v && contains(*d, x.drop_first()))
            || contains(*r, x),
    }
}

/// The set of vectors that `t` stands for.
pub open spec fn denote(t: Tree) -> Set<Vector> {
    Set::new(|x: Vector| contains(t, x))
}

/// The number of levels below `t`, following `down`.
pub open spec fn height(t: Tree) -> nat
    decreases t,
{
    match t {
        Tree::False => 0,
        Tree::True => 0,
        Tree::Node(_, d, _) => height(*d) + 1,
    }
}

/// The number of nodes in the unfolding of `t`.
pub open spec fn size(t: Tree) -> nat
    decreases t,
{
    match t {
        Tree::False => 0,
        Tree::True => 0,
        Tree::Node(_, d, r) => 1 + size(*d) + size(*r),
    }
}

/// The shape of every stored diagram: below a node there is never the empty
/// set, to its right never the empty vector, and a right neighbour has a
/// strictly larger value and stands at the same level.
pub open spec fn canonical(t: Tree) -> bool
    decreases t,
{
    match t {
        Tree::False => true,
        Tree::True => true,
        Tree::Node(v, d, r) => {
            &&& canonical(*d)
            &&& canonical(*r)
            &&& *d != Tree::False
            &&& *r != Tree::True
            &&& (*r != Tree::False ==> v < (*r).value() && height(*d) + 1 == height(*r))
        },
    }
}

/// The number of vectors in a canonical term, counted along its structure.
pub open spec fn count(t: Tree) -> nat
    decreases t,
{
    match t {
        Tree::False => 0,
        Tree::True => 1,
        Tree::Node(_, d, r) => count(*d) + count(*r),
    }
}

/// A number as a machine word: the number itself, or the largest word where
/// the number is larger.
pub open spec fn capped(n: nat) -> usize {
    if n <= usize::MAX {
        n as usize
    } else {
        usize::MAX
    }
}

/// The smallest vector of a term that is not the empty set: the path that
/// always goes down.
pub open spec fn first_vector(t: Tree) -> Vector
    decreases t,
{
    match t {
        Tree::Node(v, d, _) => seq![v] + first_vector(*d),
        _ => Seq::empty(),
    }
}

/// The vectors of a term in ascending lexicographic order.
pub open spec fn elements(t: Tree) -> Seq<Vector>
    decreases t,
{
    match t {
        Tree::False => Seq::empty(),
        Tree::True => seq![Seq::empty()],
        Tree::Node(v, d, r) => prepend_all(v, elements(*d)) + elements(*r),
    }
}

/// Puts `v` in front of every vector of `xs`.
pub open spec fn prepend_all(v: u32, xs: Seq<Vector>) -> Seq<Vector> {
    Seq::new(xs.len(), |i: int| seq![v] + xs[i])
}

/// Every vector of a canonical term has the term's height as its length.
pub proof fn lemma_uniform_length(t: Tree, x: Vector)
    requires
        canonical(t),
        contains(t, x),
    ensures
        x.len() == height(t),
    decreases t,
{
    match t {
        Tree::False => {},
        Tree::True => {},
        Tree::Node(v, d, r) => {
            if contains(*r, x) {
                lemma_uniform_length(*r, x);
            } else {
                lemma_uniform_length(*d, x.drop_first());
            }
        },
    }
}

/// A canonical term other than the empty set contains its first vector.
pub proof fn lemma_first_vector(t: Tree)
    requires
        canonical(t),
        t != Tree::False,
    ensures
        contains(t, first_vector(t)),
        t is Node ==> first_vector(t).len() > 0 && first_vector(t)[0] == t.value(),
    decreases t,
{
    match t {
        Tree::Node(v, d, r) => {
            lemma_first_vector(*d);
            assert(first_vector(t).drop_first() =~= first_vector(*d));
        },
        _ => {},
    }
}

/// Every vector of a canonical node starts with a value that is at least the
/// node's value.
pub proof fn lemma_head_bound(t: Tree, x: Vector)
    requires
        canonical(t),
        t is Node,
        contains(t, x),
    ensures
        x.len() > 0,
        x[0] >= t.value(),
    decreases t,
{
    match t {
        Tree::Node(v, d, r) => {
            if contains(*r, x) {
                lemma_head_bound(*r, x);
            }
        },
        _ => {},
    }
}

/// The vectors to the right of a canonical node start with a strictly larger
/// value than the node's.
pub proof fn lemma_right_bound(t: Tree, x: Vector)
    requires
        canonical(t),
        t is Node,
        contains(t.right(), x),
    ensures
        x.len() > 0,
        x[0] > t.value(),
{
    lemma_head_bound(t.right(), x);
}

/// A vector of a canonical node either starts with the node's value and
/// continues below it, or starts with a larger value and lies to its right.
pub proof fn lemma_node_split(t: Tree, x: Vector)
    requires
        canonical(t),
        t is Node,
    ensures
        contains(t, x) <==> (x.len() > 0 && ((x[0] == t.value() && contains(
            t.down(),
            x.drop_first(),
        )) || (x[0] > t.value() && contains(t.right(), x)))),
{
    if contains(t.right(), x) {
        lemma_right_bound(t, x);
    }
}

/// What may stand to the right of a value: a canonical term is a fitting
/// right neighbour for `node(value, down, _)` when each of its vectors has
/// the length that the node's vectors have and starts above `value`.
pub proof fn lemma_node_canonical(value: u32, down: Tree, right: Tree)
    requires
        canonical(down),
        canonical(right),
        down != Tree::False,
        forall|x: Vector| #[trigger]
            contains(right, x) ==> x.len() == height(down) + 1 && x[0] > value,
    ensures
        canonical(node(value, down, right)),
{
    if right == Tree::True {
        assert(contains(right, Seq::<u32>::empty()));
    }
    if right != Tree::False && right != Tree::True {
        lemma_first_vector(right);
        lemma_uniform_length(right, first_vector(right));
    }
}

/// Canonical terms that stand for the same set are the same term.
pub proof fn lemma_canonical_unique(s: Tree, t: Tree)
    requires
        canonical(s),
        canonical(t),
        forall|x: Vector| contains(s, x) <==> contains(t, x),
    ensures
        s == t,
    decreases s, t,
{
    if s != Tree::False {
        lemma_first_vector(s);
    }
    if t != Tree::False {
        lemma_first_vector(t);
    }
    match (s, t) {
        (Tree::Node(sv, sd, sr), Tree::Node(tv, td, tr)) => {
            lemma_head_bound(s, first_vector(t));
            lemma_head_bound(t, first_vector(s));
            assert(sv == tv);
            assert forall|y: Vector| contains(*sd, y) <==> contains(*td, y) by {
                let x = seq![sv] + y;
                assert(x.drop_first() =~= y);
                lemma_node_split(s, x);
                lemma_node_split(t, x);
            }
            assert forall|x: Vector| contains(*sr, x) <==> contains(*tr, x) by {
                lemma_node_split(s, x);
                lemma_node_split(t, x);
                if contains(*sr, x) {
                    lemma_right_bound(s, x);
                }
                if contains(*tr, x) {
                    lemma_right_bound(t, x);
                }
            }
            lemma_canonical_unique(*sd, *td);
            lemma_canonical_unique(*sr, *tr);
        },
        (Tree::Node(_, _, _), Tree::True) => {
            assert(contains(t, Seq::<u32>::empty()));
            lemma_head_bound(s, Seq::<u32>::empty());
        },
        (Tree::True, Tree::Node(_, _, _)) => {
            assert(contains(s, Seq::<u32>::empty()));
            lemma_head_bound(t, Seq::<u32>::empty());
        },
        _ => {},
    }
}

/// Canonical terms with the same denotation are the same term.
pub proof fn lemma_denote_unique(s: Tree, t: Tree)
    requires
        canonical(s),
        canonical(t),
        denote(s) == denote(t),
    ensures
        s == t,
{
    assert forall|x: Vector| contains(s, x) <==> contains(t, x) by {
        assert(denote(s).contains(x) == contains(s, x));
        assert(denote(t).contains(x) == contains(t, x));
    }
    lemma_canonical_unique(s, t);
}

/// The term that stands for the set of one vector: a chain of nodes that
/// goes down, with nothing to the right.
pub open spec fn chain(x: Vector) -> Tree
    decreases x.len(),
{
    if x.len() == 0 {
        Tree::True
    } else {
        node(x[0], chain(x.drop_first()), Tree::False)
    }
}

/// The chain of a vector is canonical, as high as the vector is long, and
/// stands for the set of that vector alone, which is its first vector.
pub proof fn lemma_chain(x: Vector)
    ensures
        canonical(chain(x)),
        chain(x) != Tree::False,
        height(chain(x)) == x.len(),
        first_vector(chain(x)) == x,
        forall|y: Vector| contains(chain(x), y) <==> y == x,
        denote(chain(x)) == Set::<Vector>::empty().insert(x),
    decreases x.len(),
{
    if x.len() > 0 {
        let rest = x.drop_first();
        lemma_chain(rest);
        assert(chain(x) == node(x[0], chain(rest), Tree::False));
        assert(canonical(Tree::False));
        assert(canonical(chain(x)));
        assert(first_vector(chain(x)) =~= x);
        assert(contains(chain(rest), rest));
        assert forall|y: Vector| contains(chain(x), y) <==> y == x by {
            assert(!contains(Tree::False, y));
            if y.len() > 0 && y[0] == x[0] && contains(chain(rest), y.drop_first()) {
                assert(y.drop_first() == rest);
                assert(y =~= seq![y[0]] + y.drop_first());
                assert(x =~= seq![x[0]] + rest);
            }
            if y == x {
                assert(contains(chain(x), y));
            }
        }
    } else {
        assert(first_vector(chain(x)) =~= x);
        assert forall|y: Vector| contains(chain(x), y) <==> y == x by {
            if y.len() == 0 {
                assert(y =~= x);
            }
        }
    }
    assert forall|y: Vector| denote(chain(x)).contains(y) <==> Set::<Vector>::empty().insert(
        x,
    ).contains(y) by {
        assert(denote(chain(x)).contains(y) == contains(chain(x), y));
    }
    assert(denote(chain(x)) =~= Set::<Vector>::empty().insert(x));
}

/// Puts `v` in front of every vector of `s`.
pub open spec fn prepend(v: u32, s: Set<Vector>) -> Set<Vector> {
    s.map(|x: Vector| seq![v] + x)
}

/// The set of a node is made of the set below it, with the node's value in
/// front, and of the set to its right, which have no vector in common.
pub proof fn lemma_node_parts(t: Tree)
    requires
        canonical(t),
        t is Node,
    ensures
        denote(t) == prepend(t.value(), denote(t.down())).union(denote(t.right())),
        prepend(t.value(), denote(t.down())).disjoint(denote(t.right())),
{
    let v = t.value();
    let front = prepend(v, denote(t.down()));
    assert forall|y: Vector| front.contains(y) <==> y.len() > 0 && y[0] == v && contains(
        t.down(),
        y.drop_first(),
    ) by {
        if front.contains(y) {
            let x = choose|x: Vector| denote(t.down()).contains(x) && y == seq![v] + x;
            assert(y.drop_first() =~= x);
        }
        if y.len() > 0 && y[0] == v && contains(t.down(), y.drop_first()) {
            assert(denote(t.down()).contains(y.drop_first()));
            assert(y =~= seq![v] + y.drop_first());
        }
    }
    assert forall|y: Vector| denote(t).contains(y) <==> front.union(denote(t.right())).contains(
        y,
    ) by {
        assert(denote(t).contains(y) == contains(t, y));
        assert(denote(t.right()).contains(y) == contains(t.right(), y));
    }
    assert(denote(t) =~= front.union(denote(t.right())));
    assert forall|y: Vector| !(front.contains(y) && denote(t.right()).contains(y)) by {
        if denote(t.right()).contains(y) {
            lemma_right_bound(t, y);
        }
    }
}

/// The set of a canonical term is finite, and its size is the number of
/// vectors counted along the term.
pub proof fn lemma_count(t: Tree)
    requires
        canonical(t),
    ensures
        denote(t).finite(),
        denote(t).len() == count(t),
    decreases t,
{
    match t {
        Tree::False => {
            assert(denote(t) =~= Set::<Vector>::empty());
        },
        Tree::True => {
            assert(denote(t) =~= Set::<Vector>::empty().insert(Seq::<u32>::empty())) by {
                assert forall|y: Vector| denote(t).contains(y) implies y == Seq::<u32>::empty() by {
                    assert(y =~= Seq::<u32>::empty());
                }
            }
        },
        Tree::Node(v, d, r) => {
            lemma_count(*d);
            lemma_count(*r);
            lemma_node_parts(t);
            let f = |x: Vector| seq![v] + x;
            let front = prepend(v, denote(*d));
            assert(vstd::relations::injective_on(f, denote(*d))) by {
                assert forall|x1: Vector, x2: Vector|
                    denote(*d).contains(x1) && denote(*d).contains(x2) && #[trigger] f(x1)
                        == #[trigger] f(x2) implies x1 == x2 by {
                    assert(f(x1).drop_first() =~= x1);
                    assert(f(x2).drop_first() =~= x2);
                }
            }
            vstd::set_lib::lemma_map_size(denote(*d), front, f);
            vstd::set_lib::lemma_set_disjoint_lens(front, denote(*r));
            assert(front + denote(*r) =~= front.union(denote(*r)));
        },
    }
}

} // verus!
