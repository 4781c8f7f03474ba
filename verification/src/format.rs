//! Texts for diagrams: the list of the vectors of a set, and a drawing of a
//! diagram in the DOT language.

use crate::iterators::{Iter, IterRight};
use crate::storage::{DataRef, Ldd, LddRef, Storage, EMPTY_SET, EMPTY_VECTOR};
use crate::tree::{elements, size, Tree, Vector};
use vstd::prelude::*;
use vstd::string::StringExecFns;

verus! {

/// The character of a decimal digit.
pub open spec fn digit(d: nat) -> char {
    if d == 0 {
        '0'
    } else if d == 1 {
        '1'
    } else if d == 2 {
        '2'
    } else if d == 3 {
        '3'
    } else if d == 4 {
        '4'
    } else if d == 5 {
        '5'
    } else if d == 6 {
        '6'
    } else if d == 7 {
        '7'
    } else if d == 8 {
        '8'
    } else {
        '9'
    }
}

/// The decimal numeral of a number, without leading zeroes.
pub open spec fn decimal(n: nat) -> Seq<char>
    decreases n,
{
    if n < 10 {
        seq![digit(n)]
    } else {
        decimal(n / 10).push(digit(n % 10))
    }
}

/// `u64::to_string`: the decimal numeral of the number, without sign and
/// without leading zeroes.
#[verifier::external_body]
fn number_text(n: u64) -> (text: String)
    ensures
        text@ == decimal(n as nat),
{
    n.to_string()
}

/// The values of a vector, each followed by a space.
pub open spec fn values_text(x: Vector) -> Seq<char>
    decreases x.len(),
{
    if x.len() == 0 {
        Seq::empty()
    } else {
        values_text(x.drop_last()) + decimal(x.last() as nat) + " "@
    }
}

/// The line of a vector: its values between angle brackets.
pub open spec fn vector_text(x: Vector) -> Seq<char> {
    "<"@ + values_text(x) + ">\n"@
}

/// The lines of some vectors, one after the other.
pub open spec fn lines_text(xs: Seq<Vector>) -> Seq<char>
    decreases xs.len(),
{
    if xs.len() == 0 {
        Seq::empty()
    } else {
        lines_text(xs.drop_last()) + vector_text(xs.last())
    }
}

/// The text of a set: the lines of its vectors between braces.
pub open spec fn set_text(xs: Seq<Vector>) -> Seq<char> {
    "{\n"@ + lines_text(xs) + "}"@
}

/// Returns a formatter for the set of `ldd`.
pub fn fmt_node<'a>(storage: &'a Storage, ldd: &Ldd) -> (display: Display<'a>)
    requires
        storage.wf(),
        storage.protects(ldd),
    ensures
        display.wf(),
        display.storage() == storage,
        display.tree() == storage.tree_of(ldd),
{
    proof {
        storage.lemma_handle(ldd);
    }
    Display { storage, ldd: ldd.borrow() }
}

/// Prints the vectors of a set.
pub struct Display<'a> {
    storage: &'a Storage,
    ldd: LddRef,
}

impl<'a> Display<'a> {
    /// The storage that holds the set.
    pub closed spec fn storage(&self) -> &'a Storage {
        self.storage
    }

    /// The term of the set.
    pub closed spec fn tree(&self) -> Tree {
        self.storage.tree(self.ldd.index())
    }

    /// The formatter names a node of a well-formed storage.
    pub closed spec fn wf(&self) -> bool {
        self.storage.wf() && self.storage.valid(self.ldd.index())
    }

    /// The text of the set: an opening brace, a line for each vector in
    /// ascending order, on which the values stand between angle brackets, each
    /// followed by a space, and a closing brace.
    pub fn to_string(&self) -> (text: String)
        requires
            self.wf(),
        ensures
            text@ == set_text(elements(self.tree())),
    {
        let ghost all = elements(self.tree());
        let mut text = String::from_str("{\n");
        let mut iter = Iter::new(self.storage, self.ldd);
        let ghost mut done: int = 0;
        proof {
            assert(all.take(0) =~= Seq::<Vector>::empty());
            assert(all.skip(0) =~= all);
            assert(text@ =~= "{\n"@ + lines_text(all.take(0)));
        }
        loop
            invariant
                iter.wf(),
                0 <= done <= all.len(),
                iter.remaining() == all.skip(done),
                text@ == "{\n"@ + lines_text(all.take(done)),
            ensures
                text@ == "{\n"@ + lines_text(all),
            decreases all.len() - done,
        {
            match iter.next() {
                None => {
                    proof {
                        assert(all.skip(done).len() == all.len() - done);
                        assert(all.take(done) =~= all);
                    }
                    break ;
                },
                Some(vector) => {
                    proof {
                        assert(all.skip(done).len() == all.len() - done);
                        assert(vector@ == all[done]);
                        assert(all.skip(done).drop_first() =~= all.skip(done + 1));
                        assert(all.take(done + 1).drop_last() =~= all.take(done));
                        assert(all.take(done + 1).last() == all[done]);
                    }
                    let ghost before = text@;
                    text.append("<");
                    let mut i: usize = 0;
                    proof {
                        assert(vector@.take(0) =~= Seq::<u32>::empty());
                        assert(text@ =~= before + "<"@ + values_text(vector@.take(0)));
                    }
                    while i < vector.len()
                        invariant
                            i <= vector@.len(),
                            text@ == before + "<"@ + values_text(vector@.take(i as int)),
                        decreases vector@.len() - i,
                    {
                        let number = number_text(vector[i] as u64);
                        let ghost prefix = text@;
                        text.append(number.as_str());
                        text.append(" ");
                        proof {
                            assert(vector@.take(i as int + 1).drop_last() =~= vector@.take(i as int));
                            assert(vector@.take(i as int + 1).last() == vector@[i as int]);
                            assert(text@ =~= before + "<"@ + values_text(
                                vector@.take(i as int + 1),
                            ));
                        }
                        i += 1;
                    }
                    text.append(">\n");
                    proof {
                        assert(vector@.take(i as int) =~= vector@);
                        assert(text@ =~= before + vector_text(vector@));
                        assert(text@ =~= "{\n"@ + lines_text(all.take(done + 1)));
                        done = done + 1;
                    }
                },
            }
        }
        text.append("}");
        text
    }
}

/// The number under which a drawing shows the node of a term: the index of
/// the node in the storage.
pub open spec fn number_of(storage: &Storage, t: Tree) -> nat {
    (choose|n: usize| storage.valid(n) && storage.tree(n) == t) as nat
}

/// The label of a node of the drawing: a port for the value of the node and
/// one for each of its right neighbours, with bars between them.
pub open spec fn label_text(t: Tree, first: bool) -> Seq<char>
    decreases t,
{
    match t {
        Tree::Node(v, _, r) => (if first {
            Seq::empty()
        } else {
            "|"@
        }) + "<"@ + decimal(v as nat) + "> "@ + decimal(v as nat) + label_text(*r, false),
        _ => Seq::empty(),
    }
}

/// The edges of a node of the drawing, which has the number `from`: one
/// from the port of the node, and of each of its right neighbours, to the
/// node below it, where that is not a constant.
pub open spec fn edges_text(storage: &Storage, from: nat, t: Tree) -> Seq<char>
    decreases t,
{
    match t {
        Tree::Node(v, d, r) => (if *d is Node {
            decimal(from) + ":"@ + decimal(v as nat) + " -> "@ + decimal(number_of(storage, *d))
                + ":"@ + decimal((*d).value() as nat) + ";\n"@
        } else {
            Seq::empty()
        }) + edges_text(storage, from, *r),
        _ => Seq::empty(),
    }
}

/// The drawing of a node: its record with its label, its edges, and the
/// drawings of the nodes below it and below each of its right neighbours.
pub open spec fn node_text(storage: &Storage, t: Tree) -> Seq<char>
    decreases t, 1nat,
{
    match t {
        Tree::Node(_, _, _) => decimal(number_of(storage, t)) + " [shape=record, label=\""@
            + label_text(t, true) + "\"];\n"@ + edges_text(storage, number_of(storage, t), t)
            + below_text(storage, t),
        _ => Seq::empty(),
    }
}

/// The drawings of the nodes below a node and below each of its right
/// neighbours.
pub open spec fn below_text(storage: &Storage, t: Tree) -> Seq<char>
    decreases t, 0nat,
{
    match t {
        Tree::Node(_, d, r) => node_text(storage, *d) + below_text(storage, *r),
        _ => Seq::empty(),
    }
}

/// The drawing of a diagram in the DOT language. The constants are not
/// shown, since every walk to the right ends in 'false' and every walk down
/// in 'true'; but a diagram that is a constant is drawn as that one node.
pub open spec fn dot_text(storage: &Storage, t: Tree) -> Seq<char> {
    "\ndigraph \"DD\" {\ngraph [dpi = 300];\ncenter = true;\nedge [dir = forward];\n\n"@ + (match t {
        Tree::False => "0 [shape=record, label=\"False\"];\n"@,
        Tree::True => "1 [shape=record, label=\"True\"];\n"@,
        Tree::Node(_, _, _) => node_text(storage, t),
    }) + "}\n"@
}

/// The number of a node's term is the node's index.
pub proof fn lemma_number_of(storage: &Storage, n: usize)
    requires
        storage.wf(),
        storage.valid(n),
    ensures
        number_of(storage, storage.tree(n)) == n,
{
    let m = choose|m: usize| storage.valid(m) && storage.tree(m) == storage.tree(n);
    storage.lemma_shared(m, n);
}

/// Appends the label of the node `ldd` to `text`.
fn print_label(storage: &Storage, text: &mut String, ldd: LddRef)
    requires
        storage.wf(),
        storage.valid(ldd.index()),
        storage.tree(ldd.index()) is Node,
    ensures
        final(text)@ == old(text)@ + label_text(storage.tree(ldd.index()), true),
{
    let ghost tree = storage.tree(ldd.index());
    let mut iter = IterRight::new(storage, ldd);
    let mut first = true;
    proof {
        assert(text@ + label_text(tree, true) =~= old(text)@ + label_text(tree, true));
    }
    loop
        invariant
            iter.wf(),
            iter.storage() == storage,
            text@ + label_text(iter.tree(), first) == old(text)@ + label_text(tree, true),
        ensures
            text@ == old(text)@ + label_text(tree, true),
        decreases size(iter.tree()),
    {
        let ghost here = iter.tree();
        let ghost before = text@;
        match iter.next() {
            None => {
                proof {
                    assert(before + label_text(here, first) =~= before);
                }
                break ;
            },
            Some(DataRef(value, _, _)) => {
                if !first {
                    text.append("|");
                }
                let number = number_text(value as u64);
                text.append("<");
                text.append(number.as_str());
                text.append("> ");
                text.append(number.as_str());
                proof {
                    assert(text@ + label_text(iter.tree(), false) =~= before + label_text(
                        here,
                        first,
                    ));
                }
                first = false;
            },
        }
    }
}

/// Appends the edges of the node `ldd` to `text`.
fn print_edges(storage: &Storage, text: &mut String, ldd: LddRef)
    requires
        storage.wf(),
        storage.valid(ldd.index()),
        storage.tree(ldd.index()) is Node,
    ensures
        final(text)@ == old(text)@ + edges_text(
            storage,
            ldd.index() as nat,
            storage.tree(ldd.index()),
        ),
{
    let ghost tree = storage.tree(ldd.index());
    let ghost from = ldd.index() as nat;
    let mut iter = IterRight::new(storage, ldd);
    let from_text = number_text(ldd.index() as u64);
    proof {
        assert(text@ + edges_text(storage, from, tree) =~= old(text)@ + edges_text(
            storage,
            from,
            tree,
        ));
    }
    loop
        invariant
            iter.wf(),
            iter.storage() == storage,
            storage.wf(),
            from_text@ == decimal(from),
            text@ + edges_text(storage, from, iter.tree()) == old(text)@ + edges_text(
                storage,
                from,
                tree,
            ),
        ensures
            text@ == old(text)@ + edges_text(storage, from, tree),
        decreases size(iter.tree()),
    {
        let ghost here = iter.tree();
        let ghost before = text@;
        match iter.next() {
            None => {
                proof {
                    assert(before + edges_text(storage, from, here) =~= before);
                }
                break ;
            },
            Some(DataRef(value, down, _)) => {
                proof {
                    storage.lemma_constants();
                    lemma_number_of(storage, down.index());
                }
                if down.index() != EMPTY_SET && down.index() != EMPTY_VECTOR {
                    let below = storage.value(down);
                    let value_text = number_text(value as u64);
                    let down_text = number_text(down.index() as u64);
                    let below_text = number_text(below as u64);
                    text.append(from_text.as_str());
                    text.append(":");
                    text.append(value_text.as_str());
                    text.append(" -> ");
                    text.append(down_text.as_str());
                    text.append(":");
                    text.append(below_text.as_str());
                    text.append(";\n");
                }
                proof {
                    assert(text@ + edges_text(storage, from, iter.tree()) =~= before + edges_text(
                        storage,
                        from,
                        here,
                    ));
                }
            },
        }
    }
}

/// Appends the drawing of the node `ldd` to `text`: nothing for a constant.
fn print_node(storage: &Storage, text: &mut String, ldd: LddRef)
    requires
        storage.wf(),
        storage.valid(ldd.index()),
    ensures
        final(text)@ == old(text)@ + node_text(storage, storage.tree(ldd.index())),
    decreases size(storage.tree(ldd.index())),
{
    let ghost tree = storage.tree(ldd.index());
    proof {
        storage.lemma_constants();
        lemma_number_of(storage, ldd.index());
    }
    if ldd.index() == EMPTY_SET || ldd.index() == EMPTY_VECTOR {
        proof {
            assert(text@ + node_text(storage, tree) =~= text@);
        }
    } else {
        // The values of the node.
        let number = number_text(ldd.index() as u64);
        text.append(number.as_str());
        text.append(" [shape=record, label=\"");
        print_label(storage, text, ldd);
        text.append("\"];\n");
        // The edges.
        print_edges(storage, text, ldd);
        // All nodes below.
        let ghost start = text@;
        let mut iter = IterRight::new(storage, ldd);
        proof {
            assert(text@ + below_text(storage, tree) =~= start + below_text(storage, tree));
        }
        loop
            invariant
                iter.wf(),
                iter.storage() == storage,
                storage.wf(),
                size(iter.tree()) <= size(tree),
                tree == storage.tree(ldd.index()),
                text@ + below_text(storage, iter.tree()) == start + below_text(storage, tree),
            ensures
                text@ == start + below_text(storage, tree),
            decreases size(iter.tree()),
        {
            let ghost here = iter.tree();
            let ghost before = text@;
            match iter.next() {
                None => {
                    proof {
                        assert(before + below_text(storage, here) =~= before);
                    }
                    break ;
                },
                Some(DataRef(_, down, _)) => {
                    print_node(storage, text, down);
                    proof {
                        assert(text@ + below_text(storage, iter.tree()) =~= before + below_text(
                            storage,
                            here,
                        ));
                    }
                },
            }
        }
        proof {
            assert(text@ =~= old(text)@ + node_text(storage, tree));
        }
    }
}

/// Returns the drawing of the diagram `ldd` in the DOT language.
pub fn print_dot(storage: &Storage, ldd: &Ldd) -> (text: String)
    requires
        storage.wf(),
        storage.protects(ldd),
    ensures
        text@ == dot_text(storage, storage.tree_of(ldd)),
{
    proof {
        storage.lemma_handle(ldd);
    }
    let mut text = String::from_str(
        "\ndigraph \"DD\" {\ngraph [dpi = 300];\ncenter = true;\nedge [dir = forward];\n\n",
    );
    // Every walk to the right ends in 'false' and every walk down in 'true', so
    // these nodes are not shown; but a diagram that is 'false' or 'true' is
    // shown as that one node.
    if storage.is_empty_set(ldd) {
        text.append("0 [shape=record, label=\"False\"];\n");
    } else if storage.is_empty_vector(ldd) {
        text.append("1 [shape=record, label=\"True\"];\n");
    } else {
        print_node(storage, &mut text, ldd.borrow());
    }
    text.append("}\n");
    text
}

} // verus!
