use vstd::prelude::*;

verus! {

/// The mathematical value of an S-expression: an atom holding bytes, or a pair.
pub enum Tree {
    Atom(Seq<u8>),
    Pair(Box<Tree>, Box<Tree>),
}

/// An S-expression held in memory: an atom of bytes, or a pair of two nodes.
pub enum Node {
    Atom(Vec<u8>),
    Pair(Box<Node>, Box<Node>),
}

/// The tree that a node stands for.
pub open spec fn tree_of(n: &Node) -> Tree
    decreases n,
{
    match n {
        Node::Atom(b) => Tree::Atom(b@),
        Node::Pair(f, r) => Tree::Pair(Box::new(tree_of(f)), Box::new(tree_of(r))),
    }
}

impl View for Node {
    type V = Tree;

    open spec fn view(&self) -> Tree {
        tree_of(self)
    }
}

/// Number of atoms and pairs in a tree.
pub open spec fn size(t: Tree) -> nat
    decreases t,
{
    match t {
        Tree::Atom(_) => 1,
        Tree::Pair(f, r) => 1 + size(*f) + size(*r),
    }
}

impl Node {
    /// An atom holding the given bytes.
    pub fn atom(b: Vec<u8>) -> (r: Node)
        ensures
            r@ == Tree::Atom(b@),
    {
        Node::Atom(b)
    }

    /// The pair of two nodes.
    pub fn pair(f: Node, r: Node) -> (p: Node)
        ensures
            p@ == Tree::Pair(Box::new(f@), Box::new(r@)),
    {
        Node::Pair(Box::new(f), Box::new(r))
    }

    /// The empty atom, written `()`, which also stands for false.
    pub fn nil() -> (r: Node)
        ensures
            r@ == Tree::Atom(Seq::<u8>::empty()),
    {
        Node::Atom(Vec::new())
    }

    /// A deep copy.
    pub fn copy(&self) -> (r: Node)
        ensures
            r@ == self@,
        decreases self,
    {
        match self {
            Node::Atom(b) => {
                let c = b.clone();
                proof {
                    assert(c@ == b@);
                }
                Node::Atom(c)
            },
            Node::Pair(f, r) => Node::Pair(Box::new(f.copy()), Box::new(r.copy())),
        }
    }
}

} // verus!
