//! Content addressing: the Merkle-style tree hash. An atom hashes its
//! bytes behind a one tag; a pair hashes its children's hashes behind a
//! two tag. The digest itself is an external primitive.

use vstd::prelude::*;

use crate::arena::{Arena, SExp, Tree};

verus! {

/// The digest that the hash primitive returns for given input bytes.
pub uninterp spec fn sha256_of(data: Seq<u8>) -> Seq<u8>;

/// Relies on sha2's Sha256: a 32-byte digest that depends on the input
/// bytes alone.
#[verifier::external_body]
fn sha256(data: &[u8]) -> (r: Vec<u8>)
    ensures
        r@ == sha256_of(data@),
        r@.len() == 32,
{
    let digest = <sha2::Sha256 as sha2::Digest>::digest(data);
    digest.to_vec()
}

/// The content hash of a tree.
pub open spec fn tree_hash_spec(t: Tree) -> Seq<u8>
    decreases t,
{
    match t {
        Tree::Atom(b) => sha256_of(seq![1u8] + b),
        Tree::Pair(l, r) => sha256_of(
            seq![2u8] + tree_hash_spec(*l) + tree_hash_spec(*r),
        ),
    }
}

/// Hash a tree for content addressing.
pub fn sha256tree(a: &Arena, node: SExp) -> (r: Vec<u8>)
    requires
        a.wf(),
        a.contains(node),
    ensures
        r@ == tree_hash_spec(a.tree(node)),
        r@.len() == 32,
    decreases a.tree(node).size(),
{
    if a.is_pair(node) {
        let (l, r) = a.pair(node);
        let lh = sha256tree(a, l);
        let rh = sha256tree(a, r);
        let mut buf: Vec<u8> = Vec::new();
        buf.push(2);
        let ghost lhs = lh@;
        let ghost rhs = rh@;
        let mut lh = lh;
        let mut rh = rh;
        buf.append(&mut lh);
        buf.append(&mut rh);
        proof {
            assert(buf@ =~= seq![2u8] + lhs + rhs);
        }
        sha256(buf.as_slice())
    } else {
        let bytes = a.atom(node);
        let mut buf: Vec<u8> = Vec::new();
        buf.push(1);
        buf.extend_from_slice(bytes.as_slice());
        proof {
            assert(buf@ =~= seq![1u8] + a.tree(node)->Atom_0);
        }
        sha256(buf.as_slice())
    }
}

} // verus!
