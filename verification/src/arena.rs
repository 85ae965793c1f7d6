//! Tree storage: an arena owns every node of a computation and hands out
//! small copyable handles. Nodes are only ever appended, and a pair's
//! children always sit at lower slots than the pair itself, so the node
//! graph is acyclic by construction.

use vstd::prelude::*;

verus! {

/// Mathematical model of one value: a leaf atom holding bytes, or a pair of
/// two subtrees.
pub enum Tree {
    Atom(Seq<u8>),
    Pair(Box<Tree>, Box<Tree>),
}

impl Tree {
    /// The empty atom, which stands for nil / false.
    pub open spec fn nil() -> Tree {
        Tree::Atom(Seq::empty())
    }

    /// Number of nodes in the tree; a measure for walks over it.
    pub open spec fn size(self) -> nat
        decreases self,
    {
        match self {
            Tree::Atom(_) => 1,
            Tree::Pair(l, r) => 1 + (*l).size() + (*r).size(),
        }
    }

    /// Length of the proper-list spine: pairs followed to the right until an
    /// atom is reached.
    pub open spec fn list_len(self) -> nat
        decreases self,
    {
        match self {
            Tree::Atom(_) => 0,
            Tree::Pair(_, r) => 1 + (*r).list_len(),
        }
    }
}

enum NodeData {
    Atom(Vec<u8>),
    Pair(usize, usize),
}

/// A handle to a node in an [`Arena`]. Stable for the arena's lifetime.
#[derive(Clone, Copy, PartialEq, Eq, Structural, Debug)]
pub struct SExp {
    idx: usize,
}

spec fn tree_of_at(nodes: Seq<NodeData>, i: int) -> Tree
    decreases i,
{
    if 0 <= i < nodes.len() {
        match nodes[i] {
            NodeData::Atom(b) => Tree::Atom(b@),
            NodeData::Pair(l, r) => {
                if l < i && r < i {
                    Tree::Pair(
                        Box::new(tree_of_at(nodes, l as int)),
                        Box::new(tree_of_at(nodes, r as int)),
                    )
                } else {
                    Tree::nil()
                }
            },
        }
    } else {
        Tree::nil()
    }
}

/// Exclusive owner of all nodes for one computation.
pub struct Arena {
    nodes: Vec<NodeData>,
}

impl Arena {
    /// Every pair's children precede it, so each handle denotes a finite tree.
    pub closed spec fn wf(self) -> bool {
        forall|i: int|
            0 <= i < self.nodes.len() ==> match #[trigger] self.nodes[i] {
                NodeData::Pair(l, r) => l < i && r < i,
                NodeData::Atom(_) => true,
            }
    }

    /// The handle denotes a node of this arena.
    pub closed spec fn contains(self, h: SExp) -> bool {
        h.idx < self.nodes@.len()
    }

    /// The tree denoted by a handle.
    pub closed spec fn tree(self, h: SExp) -> Tree {
        tree_of_at(self.nodes@, h.idx as int)
    }

    pub closed spec fn node_count(self) -> nat {
        self.nodes@.len()
    }

    /// The new arena keeps every old handle's meaning; new nodes may follow.
    pub open spec fn extends(self, pre: Arena) -> bool {
        &&& self.node_count() >= pre.node_count()
        &&& forall|h: SExp|
            #[trigger] pre.contains(h) ==> self.contains(h) && self.tree(h) == pre.tree(h)
    }

    pub fn new() -> (a: Arena)
        ensures
            a.wf(),
            a.node_count() == 0,
    {
        Arena { nodes: Vec::new() }
    }

    /// Allocate an atom holding the given bytes.
    pub fn new_atom(&mut self, v: Vec<u8>) -> (h: SExp)
        requires
            old(self).wf(),
        ensures
            final(self).wf(),
            final(self).extends(*old(self)),
            final(self).contains(h),
            final(self).tree(h) == Tree::Atom(v@),
            final(self).node_count() == old(self).node_count() + 1,
    {
        let ghost pre = *self;
        let idx = self.nodes.len();
        self.nodes.push(NodeData::Atom(v));
        let h = SExp { idx };
        proof {
            lemma_push_preserves_trees(pre.nodes@, self.nodes@);
            assert(self.tree(h) == tree_of_at(self.nodes@, idx as int));
        }
        h
    }

    /// Allocate the empty atom (nil).
    pub fn null(&mut self) -> (h: SExp)
        requires
            old(self).wf(),
        ensures
            final(self).wf(),
            final(self).extends(*old(self)),
            final(self).contains(h),
            final(self).tree(h) == Tree::nil(),
    {
        let h = self.new_atom(Vec::new());
        h
    }

    /// Allocate the one-byte atom `[1]` (true).
    pub fn one(&mut self) -> (h: SExp)
        requires
            old(self).wf(),
        ensures
            final(self).wf(),
            final(self).extends(*old(self)),
            final(self).contains(h),
            final(self).tree(h) == Tree::Atom(seq![1u8]),
    {
        let mut v: Vec<u8> = Vec::new();
        v.push(1);
        proof {
            assert(v@ =~= seq![1u8]);
        }
        let h = self.new_atom(v);
        h
    }

    /// Allocate a pair of two existing nodes.
    pub fn new_pair(&mut self, l: SExp, r: SExp) -> (h: SExp)
        requires
            old(self).wf(),
            old(self).contains(l),
            old(self).contains(r),
        ensures
            final(self).wf(),
            final(self).extends(*old(self)),
            final(self).contains(h),
            final(self).tree(h) == Tree::Pair(
                Box::new(old(self).tree(l)),
                Box::new(old(self).tree(r)),
            ),
            final(self).node_count() == old(self).node_count() + 1,
    {
        let ghost pre = *self;
        let idx = self.nodes.len();
        self.nodes.push(NodeData::Pair(l.idx, r.idx));
        let h = SExp { idx };
        proof {
            lemma_push_preserves_trees(pre.nodes@, self.nodes@);
            assert(self.tree(l) == pre.tree(l));
            assert(self.tree(r) == pre.tree(r));
        }
        h
    }

    /// True when the handle denotes a pair.
    pub fn is_pair(&self, h: SExp) -> (r: bool)
        requires
            self.wf(),
            self.contains(h),
        ensures
            r == (self.tree(h) is Pair),
    {
        match self.nodes[h.idx] {
            NodeData::Pair(_, _) => true,
            NodeData::Atom(_) => false,
        }
    }

    /// The bytes of an atom node.
    pub fn atom<'a>(&'a self, h: SExp) -> (r: &'a Vec<u8>)
        requires
            self.wf(),
            self.contains(h),
            self.tree(h) is Atom,
        ensures
            r@ == self.tree(h)->Atom_0,
    {
        match &self.nodes[h.idx] {
            NodeData::Atom(b) => b,
            NodeData::Pair(_, _) => vstd::pervasive::unreached(),
        }
    }

    /// The two children of a pair node.
    pub fn pair(&self, h: SExp) -> (r: (SExp, SExp))
        requires
            self.wf(),
            self.contains(h),
            self.tree(h) is Pair,
        ensures
            self.contains(r.0),
            self.contains(r.1),
            self.tree(r.0) == *self.tree(h)->Pair_0,
            self.tree(r.1) == *self.tree(h)->Pair_1,
    {
        match self.nodes[h.idx] {
            NodeData::Pair(l, r) => (SExp { idx: l }, SExp { idx: r }),
            NodeData::Atom(_) => {
                proof {
                    assert(false);
                }
                (h, h)
            },
        }
    }
}

/// Error for structural operations applied to a node of the wrong shape.
#[derive(Clone, Copy, PartialEq, Eq, Structural, Debug)]
pub enum EvalError {
    /// The node was an atom where a pair was required.
    NotAPair,
}

impl SExp {
    /// The two children of a pair node, or an error on an atom.
    pub fn explode(&self, a: &Arena) -> (r: Result<(SExp, SExp), EvalError>)
        requires
            a.wf(),
            a.contains(*self),
        ensures
            match r {
                Ok(p) => {
                    &&& a.tree(*self) is Pair
                    &&& a.contains(p.0) && a.contains(p.1)
                    &&& a.tree(p.0) == *a.tree(*self)->Pair_0
                    &&& a.tree(p.1) == *a.tree(*self)->Pair_1
                },
                Err(e) => a.tree(*self) is Atom && e == EvalError::NotAPair,
            },
    {
        if a.is_pair(*self) {
            Ok(a.pair(*self))
        } else {
            Err(EvalError::NotAPair)
        }
    }

    /// True exactly on the empty atom (nil).
    pub fn nullp(&self, a: &Arena) -> (r: bool)
        requires
            a.wf(),
            a.contains(*self),
        ensures
            r == (a.tree(*self) == Tree::nil()),
    {
        if a.is_pair(*self) {
            false
        } else {
            let bytes = a.atom(*self);
            let empty = bytes.len() == 0;
            proof {
                if empty {
                    assert(a.tree(*self)->Atom_0 =~= Seq::<u8>::empty());
                }
            }
            empty
        }
    }

    /// True exactly on pairs.
    pub fn listp(&self, a: &Arena) -> (r: bool)
        requires
            a.wf(),
            a.contains(*self),
        ensures
            r == (a.tree(*self) is Pair),
    {
        a.is_pair(*self)
    }

    /// The left child of a pair, or an error on an atom.
    pub fn first(&self, a: &Arena) -> (r: Result<SExp, EvalError>)
        requires
            a.wf(),
            a.contains(*self),
        ensures
            match r {
                Ok(h) => a.tree(*self) is Pair && a.contains(h) && a.tree(h) == *a.tree(
                    *self,
                )->Pair_0,
                Err(e) => a.tree(*self) is Atom && e == EvalError::NotAPair,
            },
    {
        match self.explode(a) {
            Ok((l, _)) => Ok(l),
            Err(e) => Err(e),
        }
    }

    /// The right child of a pair, or an error on an atom.
    pub fn rest(&self, a: &Arena) -> (r: Result<SExp, EvalError>)
        requires
            a.wf(),
            a.contains(*self),
        ensures
            match r {
                Ok(h) => a.tree(*self) is Pair && a.contains(h) && a.tree(h) == *a.tree(
                    *self,
                )->Pair_1,
                Err(e) => a.tree(*self) is Atom && e == EvalError::NotAPair,
            },
    {
        match self.explode(a) {
            Ok((_, r)) => Ok(r),
            Err(e) => Err(e),
        }
    }

    /// How many pairs make up the right spine below this node.
    pub fn list_len(&self, a: &Arena) -> (n: usize)
        requires
            a.wf(),
            a.contains(*self),
        ensures
            n == a.tree(*self).list_len(),
    {
        proof {
            a.lemma_list_len_bounded(*self);
        }
        let mut v: SExp = *self;
        let mut size: usize = 0;
        while v.listp(a)
            invariant
                a.wf(),
                a.contains(v),
                size + a.tree(v).list_len() == a.tree(*self).list_len(),
                a.tree(*self).list_len() <= usize::MAX,
            decreases a.tree(v).list_len(),
        {
            size = size + 1;
            let (_, r) = a.pair(v);
            v = r;
        }
        size
    }
}

proof fn lemma_list_len_at(nodes: Seq<NodeData>, i: int)
    ensures
        tree_of_at(nodes, i).list_len() <= (if i >= 0 {
            i
        } else {
            0
        }),
    decreases i,
{
    if 0 <= i < nodes.len() {
        match nodes[i] {
            NodeData::Pair(l, r) => {
                if l < i && r < i {
                    lemma_list_len_at(nodes, r as int);
                }
            },
            NodeData::Atom(_) => {},
        }
    }
}

impl Arena {
    /// The list spine below any handle is no longer than the arena itself.
    pub proof fn lemma_list_len_bounded(&self, h: SExp)
        requires
            self.contains(h),
        ensures
            self.tree(h).list_len() <= usize::MAX,
    {
        lemma_list_len_at(self.nodes@, h.idx as int);
    }
}

/// An arena extends itself.
pub proof fn lemma_extends_refl(a: Arena)
    ensures
        a.extends(a),
{
    assert forall|h: SExp| #[trigger] a.contains(h) implies a.contains(h) && a.tree(h) == a.tree(
        h,
    ) by {}
}

/// Growing an arena twice keeps every handle of the first arena meaningful.
pub proof fn lemma_extends_trans(a1: Arena, a2: Arena, a3: Arena)
    requires
        a2.extends(a1),
        a3.extends(a2),
    ensures
        a3.extends(a1),
{
    assert forall|h: SExp| #[trigger] a1.contains(h) implies a3.contains(h) && a3.tree(h)
        == a1.tree(h) by {
        assert(a2.contains(h) && a2.tree(h) == a1.tree(h));
        assert(a3.contains(h) && a3.tree(h) == a2.tree(h));
    }
}

proof fn lemma_tree_of_at_prefix(pre: Seq<NodeData>, post: Seq<NodeData>, i: int)
    requires
        pre.len() <= post.len(),
        forall|j: int| 0 <= j < pre.len() ==> post[j] == pre[j],
        i < pre.len(),
    ensures
        tree_of_at(post, i) == tree_of_at(pre, i),
    decreases i,
{
    if 0 <= i {
        match pre[i] {
            NodeData::Pair(l, r) => {
                if l < i && r < i {
                    lemma_tree_of_at_prefix(pre, post, l as int);
                    lemma_tree_of_at_prefix(pre, post, r as int);
                }
            },
            NodeData::Atom(_) => {},
        }
    }
}

proof fn lemma_push_preserves_trees(pre: Seq<NodeData>, post: Seq<NodeData>)
    requires
        pre.len() <= post.len(),
        forall|j: int| 0 <= j < pre.len() ==> post[j] == pre[j],
    ensures
        forall|i: int| 0 <= i < pre.len() ==> #[trigger] tree_of_at(post, i) == tree_of_at(pre, i),
{
    assert forall|i: int| 0 <= i < pre.len() implies #[trigger] tree_of_at(post, i) == tree_of_at(
        pre,
        i,
    ) by {
        lemma_tree_of_at_prefix(pre, post, i);
    }
}

} // verus!
