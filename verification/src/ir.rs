//! The textual intermediate representation: the tagged shapes a tree is
//! rendered to and parsed from. Integer, hex, quoted and symbol shapes all
//! denote atoms; the choice among them is presentation policy, not meaning.

use vstd::prelude::*;

use crate::arena::Tree;
use crate::keywords::{kw_atom, kw_from_atom, kw_name, lemma_kw_roundtrip};

verus! {

/// A node of the textual form.
pub enum IRRepr {
    /// The empty atom, printed `()`.
    Null,
    /// An atom printed as a quoted string.
    Quotes(Vec<u8>),
    /// An atom printed as a signed decimal integer.
    Int(Vec<u8>, bool),
    /// An atom printed as a `0x` hex literal.
    Hex(Vec<u8>),
    /// A bare name: a keyword, or a literal atom name.
    Symbol(Vec<u8>),
    /// A pair of two textual nodes.
    Cons(Box<IRRepr>, Box<IRRepr>),
}

/// The mathematical reading of a textual node.
pub enum IRView {
    Null,
    Quotes(Seq<u8>),
    Int(Seq<u8>, bool),
    Hex(Seq<u8>),
    Symbol(Seq<u8>),
    Cons(Box<IRView>, Box<IRView>),
}

impl IRRepr {
    pub open spec fn view(self) -> IRView
        decreases self,
    {
        match self {
            IRRepr::Null => IRView::Null,
            IRRepr::Quotes(b) => IRView::Quotes(b@),
            IRRepr::Int(b, signed) => IRView::Int(b@, signed),
            IRRepr::Hex(b) => IRView::Hex(b@),
            IRRepr::Symbol(s) => IRView::Symbol(s@),
            IRRepr::Cons(l, r) => IRView::Cons(Box::new((*l).view()), Box::new((*r).view())),
        }
    }
}

/// Printable ASCII, the only bytes shown inside a quoted string.
pub open spec fn printable_bytes(b: Seq<u8>) -> bool {
    forall|i: int| 0 <= i < b.len() ==> 0x20 <= #[trigger] b[i] <= 0x7e
}

/// The presentation chosen for an atom: nil prints as `()`; longer
/// printable text as a quoted string; an operator in head position as its
/// keyword; a canonically signed integer in decimal; anything else in hex.
pub open spec fn spec_ir_for_atom(b: Seq<u8>, allow_keyword: bool) -> IRView {
    if b.len() == 0 {
        IRView::Null
    } else if b.len() > 2 && printable_bytes(b) {
        IRView::Quotes(b)
    } else if allow_keyword && kw_from_atom(b) is Some {
        IRView::Symbol(kw_from_atom(b)->Some_0)
    } else if b.len() == 1 || b[0] != 0 {
        IRView::Int(b, true)
    } else {
        IRView::Hex(b)
    }
}

/// The tree a textual node assembles to: quoted, integer and hex shapes
/// keep their bytes; a symbol resolves through the keyword table, with an
/// escape marker and a fall-through to its literal bytes.
pub open spec fn ir_to_tree(ir: IRView) -> Tree
    decreases ir,
{
    match ir {
        IRView::Null => Tree::nil(),
        IRView::Quotes(b) => Tree::Atom(b),
        IRView::Int(b, _) => Tree::Atom(b),
        IRView::Hex(b) => Tree::Atom(b),
        IRView::Symbol(s) => {
            if s.len() >= 1 && s[0] == '#' as u8 {
                Tree::Atom(s.skip(1))
            } else {
                match kw_atom(s) {
                    Some(atom) => Tree::Atom(atom),
                    None => Tree::Atom(s),
                }
            }
        },
        IRView::Cons(l, r) => Tree::Pair(Box::new(ir_to_tree(*l)), Box::new(ir_to_tree(*r))),
    }
}

/// The textual form of a tree. The head flag marks positions that could
/// hold an operator; it is passed down the left spine only.
pub open spec fn ir_of_tree(t: Tree, head: bool, allow_keyword: bool) -> IRView
    decreases t,
{
    match t {
        Tree::Atom(b) => spec_ir_for_atom(b, head && allow_keyword),
        Tree::Pair(l, r) => {
            let new_head = (*l is Pair) || head;
            IRView::Cons(
                Box::new(ir_of_tree(*l, new_head, allow_keyword)),
                Box::new(ir_of_tree(*r, false, allow_keyword)),
            )
        },
    }
}

/// No keyword starts with the escape marker.
proof fn lemma_kw_no_escape(op: u8)
    ensures
        kw_name(op) matches Some(nm) ==> nm.len() >= 1 && nm[0] != '#' as u8,
{
}

/// Assembling the presentation of an atom yields that very atom back.
pub proof fn lemma_ir_atom_roundtrip(b: Seq<u8>, allow_keyword: bool)
    ensures
        ir_to_tree(spec_ir_for_atom(b, allow_keyword)) == Tree::Atom(b),
{
    let ir = spec_ir_for_atom(b, allow_keyword);
    if b.len() == 0 {
        assert(b =~= Seq::<u8>::empty());
    } else if b.len() > 2 && printable_bytes(b) {
    } else if allow_keyword && kw_from_atom(b) is Some {
        let name = kw_from_atom(b)->Some_0;
        assert(b.len() == 1);
        lemma_kw_no_escape(b[0]);
        lemma_kw_roundtrip(b);
        assert(kw_atom(name) == Some(b));
    } else {
    }
}

/// Assembling the textual form of any tree yields a structurally equal
/// tree: the textual codec loses nothing.
pub proof fn lemma_ir_roundtrip(t: Tree, head: bool, allow_keyword: bool)
    ensures
        ir_to_tree(ir_of_tree(t, head, allow_keyword)) == t,
    decreases t,
{
    match t {
        Tree::Atom(b) => {
            lemma_ir_atom_roundtrip(b, head && allow_keyword);
        },
        Tree::Pair(l, r) => {
            lemma_ir_roundtrip(*l, (*l is Pair) || head, allow_keyword);
            lemma_ir_roundtrip(*r, false, allow_keyword);
        },
    }
}

} // verus!
