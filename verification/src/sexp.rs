//! The tree builder: lifts a heterogeneous host value — bytes, text, a
//! number, a curve point, a list, a tuple, or an already-built subtree —
//! into a canonical tree. The walk is driven by an explicit two-stack
//! machine, so arbitrarily nested input cannot exhaust the call stack.

use vstd::prelude::*;

use crate::arena::{Arena, SExp, Tree};
use crate::casts::Number;

verus! {

/// A compressed curve point, carried as its 48 canonical bytes.
pub struct G1Element {
    bytes: Vec<u8>,
}

impl G1Element {
    /// The compressed encoding.
    pub closed spec fn rep(self) -> Seq<u8> {
        self.bytes@
    }

    pub open spec fn wf(self) -> bool {
        self.rep().len() == 48
    }

    pub fn new(bytes: Vec<u8>) -> (g: G1Element)
        requires
            bytes@.len() == 48,
        ensures
            g.rep() == bytes@,
            g.wf(),
    {
        G1Element { bytes }
    }

    pub fn to_bytes(&self) -> (r: Vec<u8>)
        ensures
            r@ == self.rep(),
    {
        vstd::slice::slice_to_vec(self.bytes.as_slice())
    }
}

/// A host value that can be lowered into a tree.
pub enum CastableType {
    /// An already-built subtree; passed through unchanged.
    CLVMObject(SExp),
    /// Raw bytes; becomes an atom verbatim.
    Bytes(Vec<u8>),
    /// Text; becomes an atom of its UTF-8 bytes.
    String(String),
    /// A signed integer; becomes an atom of its canonical encoding.
    Number(Number),
    /// A curve point; becomes an atom of its 48 compressed bytes.
    G1Affine(G1Element),
    /// An ordered sequence; becomes a nil-terminated pair chain.
    ListOf(Vec<CastableType>),
    /// An explicit pair of two values.
    TupleOf(Box<CastableType>, Box<CastableType>),
}

/// Pending work while building: convert the top of the value stack, splice
/// a finished child into a reserved pair slot, or prepend a finished item
/// to a list under construction.
pub enum SexpStackOp {
    OpConvert,
    OpSetPair(bool, usize),
    OpPrepend(usize),
}

/// A broken internal invariant of the build machine. Well-typed input never
/// reaches these; they are reported rather than silently mis-built.
#[derive(Clone, Copy, PartialEq, Eq, Structural, Debug)]
pub enum BuildError {
    /// The value stack was empty where an operand was expected.
    EmptyStack,
    /// A value had the wrong shape for the operation that found it.
    Malformed,
}

/// The mathematical reading of a castable value, with subtree handles
/// resolved and every atom-like variant reduced to its bytes.
pub enum CastView {
    Node(Tree),
    Atom(Seq<u8>),
    List(Seq<CastView>),
    Pair(Box<CastView>, Box<CastView>),
}

/// Resolve handles against the arena, turning a castable value into its
/// mathematical reading.
pub open spec fn abs_cast(a: Arena, v: CastableType) -> CastView
    decreases v,
{
    match v {
        CastableType::CLVMObject(h) => CastView::Node(a.tree(h)),
        CastableType::Bytes(b) => CastView::Atom(b@),
        CastableType::String(s) => CastView::Atom(vstd::utf8::encode_utf8(s@)),
        CastableType::Number(n) => CastView::Atom(n.rep()),
        CastableType::G1Affine(g) => CastView::Atom(g.rep()),
        CastableType::ListOf(items) => CastView::List(abs_cast_list(a, items@)),
        CastableType::TupleOf(x, y) => CastView::Pair(
            Box::new(abs_cast(a, *x)),
            Box::new(abs_cast(a, *y)),
        ),
    }
}

pub open spec fn abs_cast_list(a: Arena, s: Seq<CastableType>) -> Seq<CastView>
    decreases s,
{
    if s.len() == 0 {
        Seq::empty()
    } else {
        seq![abs_cast(a, s[0])] + abs_cast_list(a, s.skip(1))
    }
}

/// Every subtree handle in the value points into the arena.
pub open spec fn castable_wf(a: Arena, v: CastableType) -> bool
    decreases v,
{
    match v {
        CastableType::CLVMObject(h) => a.contains(h),
        CastableType::Bytes(_) => true,
        CastableType::String(_) => true,
        CastableType::Number(_) => true,
        CastableType::G1Affine(g) => g.wf(),
        CastableType::ListOf(items) => castable_wf_list(a, items@),
        CastableType::TupleOf(x, y) => castable_wf(a, *x) && castable_wf(a, *y),
    }
}

pub open spec fn castable_wf_list(a: Arena, s: Seq<CastableType>) -> bool
    decreases s,
{
    if s.len() == 0 {
        true
    } else {
        castable_wf(a, s[0]) && castable_wf_list(a, s.skip(1))
    }
}

/// The tree a castable value lowers to: subtrees pass through, atoms keep
/// their bytes, a tuple becomes a pair, and a list becomes a pair chain
/// ending in the empty atom.
pub open spec fn glift(g: CastView) -> Tree
    decreases g,
{
    match g {
        CastView::Node(t) => t,
        CastView::Atom(b) => Tree::Atom(b),
        CastView::List(s) => glift_fold(s, Tree::nil()),
        CastView::Pair(x, y) => Tree::Pair(Box::new(glift(*x)), Box::new(glift(*y))),
    }
}

/// The pair chain holding the items of `s` in order, ending in `acc`.
pub open spec fn glift_fold(s: Seq<CastView>, acc: Tree) -> Tree
    decreases s,
{
    if s.len() == 0 {
        acc
    } else {
        Tree::Pair(Box::new(glift(s[0])), Box::new(glift_fold(s.skip(1), acc)))
    }
}

/// The tree that the builder yields for a castable value.
pub open spec fn lift(a: Arena, v: CastableType) -> Tree {
    glift(abs_cast(a, v))
}

/// Growing the arena does not change the reading of a well-formed value.
pub proof fn lemma_abs_cast_extends(a1: Arena, a2: Arena, v: CastableType)
    requires
        a2.extends(a1),
        castable_wf(a1, v),
    ensures
        abs_cast(a2, v) == abs_cast(a1, v),
        castable_wf(a2, v),
    decreases v,
{
    match v {
        CastableType::CLVMObject(h) => {
            assert(a1.contains(h));
        },
        CastableType::ListOf(items) => {
            lemma_abs_cast_list_extends(a1, a2, items@);
        },
        CastableType::TupleOf(x, y) => {
            lemma_abs_cast_extends(a1, a2, *x);
            lemma_abs_cast_extends(a1, a2, *y);
        },
        _ => {},
    }
}

pub proof fn lemma_abs_cast_list_extends(a1: Arena, a2: Arena, s: Seq<CastableType>)
    requires
        a2.extends(a1),
        castable_wf_list(a1, s),
    ensures
        abs_cast_list(a2, s) == abs_cast_list(a1, s),
        castable_wf_list(a2, s),
    decreases s,
{
    if s.len() > 0 {
        lemma_abs_cast_extends(a1, a2, s[0]);
        lemma_abs_cast_list_extends(a1, a2, s.skip(1));
    }
}

/// How much conversion work a reading still needs; only unconverted values
/// count.
pub open spec fn csize(g: CastView) -> nat
    decreases g,
{
    match g {
        CastView::Node(_) => 1,
        CastView::Atom(_) => 1,
        CastView::List(s) => 1 + csize_list(s),
        CastView::Pair(x, y) => 1 + csize(*x) + csize(*y),
    }
}

pub open spec fn csize_list(s: Seq<CastView>) -> nat
    decreases s,
{
    if s.len() == 0 {
        0
    } else {
        csize(s[0]) + csize_list(s.skip(1))
    }
}

/// One slot of the build machine's value stack, mathematically: a value
/// still to convert, a finished tree, or a reserved pair slot whose
/// children arrive separately.
pub enum GEntry {
    Val(CastView),
    Done(Tree),
    Pend(Option<Tree>, Option<Tree>),
}

pub open spec fn gsize(e: GEntry) -> nat {
    match e {
        GEntry::Val(g) => csize(g),
        GEntry::Done(_) => 0,
        GEntry::Pend(_, _) => 0,
    }
}

pub open spec fn total_gsize(gs: Seq<GEntry>) -> nat
    decreases gs.len(),
{
    if gs.len() == 0 {
        0
    } else {
        gsize(gs.last()) + total_gsize(gs.drop_last())
    }
}

proof fn lemma_total_gsize_index(gs: Seq<GEntry>, i: int)
    requires
        0 <= i < gs.len(),
    ensures
        total_gsize(gs) >= gsize(gs[i]),
        total_gsize(gs.update(i, GEntry::Done(Tree::nil()))) == total_gsize(gs) - gsize(gs[i]),
    decreases gs.len(),
{
    let gs2 = gs.update(i, GEntry::Done(Tree::nil()));
    if i == gs.len() - 1 {
        assert(gs2.last() == GEntry::Done(Tree::nil()));
        assert(gs2.drop_last() =~= gs.drop_last());
    } else {
        lemma_total_gsize_index(gs.drop_last(), i);
        assert(gs2.last() == gs.last());
        assert(gs2.drop_last() =~= gs.drop_last().update(i, GEntry::Done(Tree::nil())));
    }
}

/// Replacing a slot changes the total work by the difference of the slots.
proof fn lemma_total_gsize_update(gs: Seq<GEntry>, i: int, e: GEntry)
    requires
        0 <= i < gs.len(),
    ensures
        total_gsize(gs.update(i, e)) == total_gsize(gs) - gsize(gs[i]) + gsize(e),
    decreases gs.len(),
{
    let gs2 = gs.update(i, e);
    if i == gs.len() - 1 {
        assert(gs2.last() == e);
        assert(gs2.drop_last() =~= gs.drop_last());
    } else {
        lemma_total_gsize_update(gs.drop_last(), i, e);
        assert(gs2.last() == gs.last());
        assert(gs2.drop_last() =~= gs.drop_last().update(i, e));
    }
}

proof fn lemma_total_gsize_push(gs: Seq<GEntry>, e: GEntry)
    ensures
        total_gsize(gs.push(e)) == total_gsize(gs) + gsize(e),
{
    assert(gs.push(e).last() == e);
    assert(gs.push(e).drop_last() =~= gs);
}

/// What the build machine will yield from a given state: operations run
/// from the top of `ops`; converting a value yields its lifted tree at
/// once; the machine ends with a single finished tree.
pub open spec fn bfinish(gs: Seq<GEntry>, ops: Seq<SexpStackOp>) -> Option<Tree>
    decreases total_gsize(gs), ops.len(),
    via bfinish_decreases
{
    if ops.len() == 0 {
        if gs.len() == 1 {
            match gs[0] {
                GEntry::Done(t) => Some(t),
                _ => None,
            }
        } else {
            None
        }
    } else {
        match ops.last() {
            SexpStackOp::OpConvert => {
                if gs.len() == 0 {
                    None
                } else {
                    match gs.last() {
                        GEntry::Done(_) => bfinish(gs, ops.drop_last()),
                        GEntry::Pend(_, _) => None,
                        GEntry::Val(g) => bfinish(
                            gs.update(gs.len() - 1, GEntry::Done(glift(g))),
                            ops.drop_last(),
                        ),
                    }
                }
            },
            SexpStackOp::OpSetPair(toset, tgt) => {
                if gs.len() >= 1 && (tgt as int) < gs.len() - 1 {
                    match (gs.last(), gs[tgt as int]) {
                        (GEntry::Done(t), GEntry::Pend(ol, or)) => {
                            if !toset {
                                bfinish(
                                    gs.drop_last().update(tgt as int, GEntry::Pend(Some(t), or)),
                                    ops.drop_last(),
                                )
                            } else {
                                match ol {
                                    Some(l) => bfinish(
                                        gs.drop_last().update(
                                            tgt as int,
                                            GEntry::Done(Tree::Pair(Box::new(l), Box::new(t))),
                                        ),
                                        ops.drop_last(),
                                    ),
                                    None => None,
                                }
                            }
                        },
                        _ => None,
                    }
                } else {
                    None
                }
            },
            SexpStackOp::OpPrepend(tgt) => {
                if gs.len() >= 1 && (tgt as int) < gs.len() - 1 {
                    match (gs.last(), gs[tgt as int]) {
                        (GEntry::Done(f), GEntry::Done(o)) => bfinish(
                            gs.drop_last().update(
                                tgt as int,
                                GEntry::Done(Tree::Pair(Box::new(f), Box::new(o))),
                            ),
                            ops.drop_last(),
                        ),
                        _ => None,
                    }
                } else {
                    None
                }
            },
        }
    }
}

#[via_fn]
proof fn bfinish_decreases(gs: Seq<GEntry>, ops: Seq<SexpStackOp>) {
    if ops.len() > 0 {
        match ops.last() {
            SexpStackOp::OpConvert => {
                if gs.len() > 0 {
                    match gs.last() {
                        GEntry::Val(g) => {
                            lemma_total_gsize_update(
                                gs,
                                gs.len() - 1,
                                GEntry::Done(glift(g)),
                            );
                            assert(csize(g) >= 1);
                        },
                        _ => {},
                    }
                }
            },
            SexpStackOp::OpSetPair(toset, tgt) => {
                if gs.len() >= 1 && (tgt as int) < gs.len() - 1 {
                    match (gs.last(), gs[tgt as int]) {
                        (GEntry::Done(t), GEntry::Pend(ol, or)) => {
                            lemma_setpair_measure(gs, tgt as int, GEntry::Pend(Some(t), or));
                            match ol {
                                Some(l) => {
                                    lemma_setpair_measure(
                                        gs,
                                        tgt as int,
                                        GEntry::Done(Tree::Pair(Box::new(l), Box::new(t))),
                                    );
                                },
                                None => {},
                            }
                        },
                        _ => {},
                    }
                }
            },
            SexpStackOp::OpPrepend(tgt) => {
                if gs.len() >= 1 && (tgt as int) < gs.len() - 1 {
                    match (gs.last(), gs[tgt as int]) {
                        (GEntry::Done(f), GEntry::Done(o)) => {
                            lemma_setpair_measure(
                                gs,
                                tgt as int,
                                GEntry::Done(Tree::Pair(Box::new(f), Box::new(o))),
                            );
                        },
                        _ => {},
                    }
                }
            },
        }
    }
}

/// Dropping a zero-work top slot and rewriting another zero-work slot to a
/// zero-work entry keeps the total work unchanged.
proof fn lemma_setpair_measure(gs: Seq<GEntry>, tgt: int, e: GEntry)
    requires
        gs.len() >= 1,
        0 <= tgt < gs.len() - 1,
        gsize(gs.last()) == 0,
        gsize(gs[tgt]) == 0,
        gsize(e) == 0,
    ensures
        total_gsize(gs.drop_last().update(tgt, e)) == total_gsize(gs),
{
    let dl = gs.drop_last();
    assert(total_gsize(gs) == gsize(gs.last()) + total_gsize(dl));
    lemma_total_gsize_update(dl, tgt, e);
    assert(dl[tgt] == gs[tgt]);
}

/// Reserving a pair slot and scheduling both children gives the same final
/// tree as converting the tuple in one step.
proof fn lemma_bfinish_tuple_expand(
    gs: Seq<GEntry>,
    ops: Seq<SexpStackOp>,
    x: CastView,
    y: CastView,
    tgt: usize,
)
    requires
        ops.len() > 0,
        ops.last() == SexpStackOp::OpConvert,
        gs.len() > 0,
        gs.last() == GEntry::Val(CastView::Pair(Box::new(x), Box::new(y))),
        tgt as int == gs.len() - 1,
    ensures
        bfinish(
            gs.drop_last().push(GEntry::Pend(None, None)).push(GEntry::Val(y)).push(
                GEntry::Val(x),
            ),
            ops.drop_last().push(SexpStackOp::OpSetPair(true, tgt)).push(
                SexpStackOp::OpConvert,
            ).push(SexpStackOp::OpSetPair(false, tgt)).push(SexpStackOp::OpConvert),
        ) == bfinish(gs, ops),
{
    let d = gs.drop_last();
    let t = tgt as int;
    let od = ops.drop_last();
    let s3 = d.push(GEntry::Pend(None, None)).push(GEntry::Val(y)).push(GEntry::Val(x));
    let o4 = od.push(SexpStackOp::OpSetPair(true, tgt)).push(SexpStackOp::OpConvert).push(
        SexpStackOp::OpSetPair(false, tgt),
    ).push(SexpStackOp::OpConvert);
    // convert the left child
    assert(o4.last() == SexpStackOp::OpConvert);
    assert(s3.last() == GEntry::Val(x));
    let s2 = d.push(GEntry::Pend(None, None)).push(GEntry::Val(y)).push(
        GEntry::Done(glift(x)),
    );
    let o3 = od.push(SexpStackOp::OpSetPair(true, tgt)).push(SexpStackOp::OpConvert).push(
        SexpStackOp::OpSetPair(false, tgt),
    );
    assert(s3.update(s3.len() - 1, GEntry::Done(glift(x))) =~= s2);
    assert(o4.drop_last() =~= o3);
    assert(bfinish(s3, o4) == bfinish(s2, o3));
    // splice it into the left wing of the reserved slot
    assert(o3.last() == SexpStackOp::OpSetPair(false, tgt));
    assert(s2.last() == GEntry::Done(glift(x)));
    assert(s2[t] == GEntry::Pend(None, None));
    assert(t < s2.len() - 1);
    let s1 = d.push(GEntry::Pend(Some(glift(x)), None)).push(GEntry::Val(y));
    let o2 = od.push(SexpStackOp::OpSetPair(true, tgt)).push(SexpStackOp::OpConvert);
    assert(s2.drop_last().update(t, GEntry::Pend(Some(glift(x)), None)) =~= s1);
    assert(o3.drop_last() =~= o2);
    assert(bfinish(s2, o3) == bfinish(s1, o2));
    // convert the right child
    assert(o2.last() == SexpStackOp::OpConvert);
    assert(s1.last() == GEntry::Val(y));
    let s0 = d.push(GEntry::Pend(Some(glift(x)), None)).push(GEntry::Done(glift(y)));
    let o1 = od.push(SexpStackOp::OpSetPair(true, tgt));
    assert(s1.update(s1.len() - 1, GEntry::Done(glift(y))) =~= s0);
    assert(o2.drop_last() =~= o1);
    assert(bfinish(s1, o2) == bfinish(s0, o1));
    // splice it into the right wing, completing the pair
    assert(o1.last() == SexpStackOp::OpSetPair(true, tgt));
    assert(s0.last() == GEntry::Done(glift(y)));
    assert(s0[t] == GEntry::Pend(Some(glift(x)), None));
    assert(t < s0.len() - 1);
    let pair = Tree::Pair(Box::new(glift(x)), Box::new(glift(y)));
    let sf = d.push(GEntry::Done(pair));
    assert(s0.drop_last().update(t, GEntry::Done(pair)) =~= sf);
    assert(o1.drop_last() =~= od);
    assert(bfinish(s0, o1) == bfinish(sf, od));
    // the one-step reading of the same work
    assert(glift(CastView::Pair(Box::new(x), Box::new(y))) == pair);
    assert(gs.update(gs.len() - 1, GEntry::Done(pair)) =~= sf);
    assert(bfinish(gs, ops) == bfinish(sf, od));
}

/// The values still to be prepended, as stack entries: first item deepest.
spec fn vals_of(items: Seq<CastView>) -> Seq<GEntry> {
    Seq::new(items.len(), |i: int| GEntry::Val(items[i]))
}

/// The alternating prepend/convert schedule for `n` list items.
spec fn rep_ops(tgt: usize, n: nat) -> Seq<SexpStackOp> {
    Seq::new(
        2 * n,
        |i: int|
            if i % 2 == 0 {
                SexpStackOp::OpPrepend(tgt)
            } else {
                SexpStackOp::OpConvert
            },
    )
}

/// Folding from the back: the last item can be absorbed into the seed.
proof fn lemma_glift_fold_snoc(s: Seq<CastView>, acc: Tree)
    requires
        s.len() > 0,
    ensures
        glift_fold(s, acc) == glift_fold(
            s.drop_last(),
            Tree::Pair(Box::new(glift(s.last())), Box::new(acc)),
        ),
    decreases s.len(),
{
    if s.len() == 1 {
        assert(s.drop_last().len() == 0);
        assert(s.skip(1).len() == 0);
        assert(glift_fold(s, acc) == Tree::Pair(Box::new(glift(s[0])), Box::new(acc)));
    } else {
        lemma_glift_fold_snoc(s.skip(1), acc);
        assert(s.skip(1).drop_last() =~= s.drop_last().skip(1));
        assert(s.skip(1).last() == s.last());
        assert(s.drop_last()[0] == s[0]);
        let acc2 = Tree::Pair(Box::new(glift(s.last())), Box::new(acc));
        assert(glift_fold(s, acc) == Tree::Pair(
            Box::new(glift(s[0])),
            Box::new(glift_fold(s.skip(1), acc)),
        ));
        assert(glift_fold(s.drop_last(), acc2) == Tree::Pair(
            Box::new(glift(s.drop_last()[0])),
            Box::new(glift_fold(s.drop_last().skip(1), acc2)),
        ));
    }
}

/// Running the prepend/convert schedule over scheduled items builds the
/// pair chain of those items onto the accumulator in the target slot.
proof fn lemma_bfinish_prepend_run(
    base: Seq<GEntry>,
    obase: Seq<SexpStackOp>,
    tgt: usize,
    items: Seq<CastView>,
    acc: Tree,
)
    requires
        base.len() >= 1,
        tgt as int == base.len() - 1,
        base.last() == GEntry::Done(acc),
    ensures
        bfinish(base + vals_of(items), obase + rep_ops(tgt, items.len())) == bfinish(
            base.update(tgt as int, GEntry::Done(glift_fold(items, acc))),
            obase,
        ),
    decreases items.len(),
{
    let t = tgt as int;
    if items.len() == 0 {
        assert(base + vals_of(items) =~= base);
        assert(obase + rep_ops(tgt, 0) =~= obase);
        assert(glift_fold(items, acc) == acc);
        assert(base.update(t, GEntry::Done(acc)) =~= base);
    } else {
        let n = items.len();
        let s = base + vals_of(items);
        let o = obase + rep_ops(tgt, n);
        // the last scheduled operation converts the last item
        assert(o.last() == SexpStackOp::OpConvert) by {
            assert(o[o.len() - 1] == rep_ops(tgt, n)[2 * n - 1]);
        }
        assert(s.last() == GEntry::Val(items.last())) by {
            assert(s[s.len() - 1] == vals_of(items)[n - 1]);
        }
        let lt = glift(items.last());
        let s1 = s.update(s.len() - 1, GEntry::Done(lt));
        assert(bfinish(s, o) == bfinish(s1, o.drop_last()));
        // then the prepend folds it onto the accumulator
        assert(o.drop_last() =~= obase + rep_ops(tgt, n).drop_last());
        let o1 = o.drop_last();
        assert(o1.last() == SexpStackOp::OpPrepend(tgt)) by {
            assert(o1[o1.len() - 1] == rep_ops(tgt, n)[2 * n - 2]);
        }
        assert(s1.last() == GEntry::Done(lt));
        assert(s1[t] == base.last()) by {
            assert(s1[t] == s[t]);
            assert(s[t] == base[t]);
        }
        assert(t < s1.len() - 1);
        let acc2 = Tree::Pair(Box::new(lt), Box::new(acc));
        let s2 = s1.drop_last().update(t, GEntry::Done(acc2));
        assert(bfinish(s1, o1) == bfinish(s2, o1.drop_last()));
        // the remaining schedule is the same run over one item fewer
        let base2 = base.update(t, GEntry::Done(acc2));
        assert(s2 =~= base2 + vals_of(items.drop_last())) by {
            assert(s1.drop_last() =~= base + vals_of(items.drop_last()));
        }
        assert(o1.drop_last() =~= obase + rep_ops(tgt, (n - 1) as nat));
        assert(base2.last() == GEntry::Done(acc2));
        lemma_bfinish_prepend_run(base2, obase, tgt, items.drop_last(), acc2);
        assert(base2.update(t, GEntry::Done(glift_fold(items.drop_last(), acc2))) =~= base.update(
            t,
            GEntry::Done(glift_fold(items.drop_last(), acc2)),
        ));
        lemma_glift_fold_snoc(items, acc);
    }
}

/// Index view of the recursive list reading.
proof fn lemma_abs_cast_list_index(a: Arena, s: Seq<CastableType>)
    ensures
        abs_cast_list(a, s).len() == s.len(),
        forall|i: int| 0 <= i < s.len() ==> #[trigger] abs_cast_list(a, s)[i] == abs_cast(a, s[i]),
        castable_wf_list(a, s) ==> forall|i: int|
            0 <= i < s.len() ==> castable_wf(a, #[trigger] s[i]),
    decreases s.len(),
{
    if s.len() > 0 {
        lemma_abs_cast_list_index(a, s.skip(1));
        assert forall|i: int| 0 <= i < s.len() implies #[trigger] abs_cast_list(a, s)[i]
            == abs_cast(a, s[i]) by {
            if i > 0 {
                assert(abs_cast_list(a, s)[i] == abs_cast_list(a, s.skip(1))[i - 1]);
                assert(s.skip(1)[i - 1] == s[i]);
            }
        }
        if castable_wf_list(a, s) {
            assert forall|i: int| 0 <= i < s.len() implies castable_wf(a, #[trigger] s[i]) by {
                if i > 0 {
                    assert(s.skip(1)[i - 1] == s[i]);
                    assert(castable_wf(a, s.skip(1)[i - 1]));
                }
            }
        }
    }
}

/// One slot of the executable value stack.
enum BuildEntry {
    Val(CastableType),
    Done(SExp),
    Pend(Option<SExp>, Option<SExp>),
}

spec fn abs_opt(a: Arena, o: Option<SExp>) -> Option<Tree> {
    match o {
        Some(h) => Some(a.tree(h)),
        None => None,
    }
}

spec fn abs_entry(a: Arena, e: BuildEntry) -> GEntry {
    match e {
        BuildEntry::Val(v) => GEntry::Val(abs_cast(a, v)),
        BuildEntry::Done(h) => GEntry::Done(a.tree(h)),
        BuildEntry::Pend(ol, or) => GEntry::Pend(abs_opt(a, ol), abs_opt(a, or)),
    }
}

spec fn abs_stack(a: Arena, s: Seq<BuildEntry>) -> Seq<GEntry> {
    Seq::new(s.len(), |i: int| abs_entry(a, s[i]))
}

spec fn opt_wf(a: Arena, o: Option<SExp>) -> bool {
    match o {
        Some(h) => a.contains(h),
        None => true,
    }
}

spec fn entry_wf(a: Arena, e: BuildEntry) -> bool {
    match e {
        BuildEntry::Val(v) => castable_wf(a, v),
        BuildEntry::Done(h) => a.contains(h),
        BuildEntry::Pend(ol, or) => opt_wf(a, ol) && opt_wf(a, or),
    }
}

spec fn bstack_wf(a: Arena, s: Seq<BuildEntry>) -> bool {
    forall|i: int| 0 <= i < s.len() ==> entry_wf(a, #[trigger] s[i])
}

proof fn lemma_abs_stack_extends(a1: Arena, a2: Arena, s: Seq<BuildEntry>)
    requires
        a2.extends(a1),
        bstack_wf(a1, s),
    ensures
        abs_stack(a2, s) =~= abs_stack(a1, s),
        bstack_wf(a2, s),
{
    assert forall|i: int| 0 <= i < s.len() implies abs_stack(a2, s)[i] == abs_stack(a1, s)[i]
        && entry_wf(a2, #[trigger] s[i]) by {
        assert(entry_wf(a1, s[i]));
        match s[i] {
            BuildEntry::Val(v) => {
                lemma_abs_cast_extends(a1, a2, v);
            },
            BuildEntry::Done(h) => {
                assert(a1.contains(h));
            },
            BuildEntry::Pend(ol, or) => {
                match ol {
                    Some(h) => {
                        assert(a1.contains(h));
                    },
                    None => {},
                }
                match or {
                    Some(h) => {
                        assert(a1.contains(h));
                    },
                    None => {},
                }
            },
        }
    }
}

proof fn lemma_abs_stack_push(a: Arena, s: Seq<BuildEntry>, e: BuildEntry)
    ensures
        abs_stack(a, s.push(e)) =~= abs_stack(a, s).push(abs_entry(a, e)),
        bstack_wf(a, s) && entry_wf(a, e) ==> bstack_wf(a, s.push(e)),
{
    if bstack_wf(a, s) && entry_wf(a, e) {
        assert forall|i: int| 0 <= i < s.push(e).len() implies entry_wf(
            a,
            #[trigger] s.push(e)[i],
        ) by {
            if i < s.len() {
                assert(s.push(e)[i] == s[i]);
            }
        }
    }
}

proof fn lemma_abs_stack_drop(a: Arena, s: Seq<BuildEntry>)
    requires
        s.len() > 0,
    ensures
        abs_stack(a, s.drop_last()) =~= abs_stack(a, s).drop_last(),
        bstack_wf(a, s) ==> bstack_wf(a, s.drop_last()) && entry_wf(a, s.last()),
{
    if bstack_wf(a, s) {
        assert forall|i: int| 0 <= i < s.drop_last().len() implies entry_wf(
            a,
            #[trigger] s.drop_last()[i],
        ) by {
            assert(s.drop_last()[i] == s[i]);
        }
        assert(entry_wf(a, s[s.len() - 1]));
    }
}

proof fn lemma_abs_stack_update(a: Arena, s: Seq<BuildEntry>, i: int, e: BuildEntry)
    requires
        0 <= i < s.len(),
    ensures
        abs_stack(a, s.update(i, e)) =~= abs_stack(a, s).update(i, abs_entry(a, e)),
        bstack_wf(a, s) && entry_wf(a, e) ==> bstack_wf(a, s.update(i, e)),
{
    if bstack_wf(a, s) && entry_wf(a, e) {
        assert forall|j: int| 0 <= j < s.len() implies entry_wf(a, #[trigger] s.update(i, e)[j]) by {
            if j != i {
                assert(s.update(i, e)[j] == s[j]);
            }
        }
    }
}

/// Snoc view of the work in a list of readings.
proof fn lemma_csize_list_snoc(s: Seq<CastView>)
    requires
        s.len() > 0,
    ensures
        csize_list(s) == csize_list(s.drop_last()) + csize(s.last()),
    decreases s.len(),
{
    if s.len() == 1 {
        assert(s.drop_last().len() == 0);
        assert(csize_list(s.drop_last()) == 0);
        assert(s.skip(1).len() == 0);
        assert(csize_list(s.skip(1)) == 0);
        assert(s.last() == s[0]);
        assert(csize_list(s) == csize(s[0]) + csize_list(s.skip(1)));
    } else {
        lemma_csize_list_snoc(s.skip(1));
        assert(s.skip(1).drop_last() =~= s.drop_last().skip(1));
        assert(s.skip(1).last() == s.last());
        assert(s.drop_last()[0] == s[0]);
        assert(csize_list(s) == csize(s[0]) + csize_list(s.skip(1)));
        assert(csize_list(s.drop_last()) == csize(s[0]) + csize_list(s.drop_last().skip(1)));
    }
}

proof fn lemma_total_gsize_concat(xs: Seq<GEntry>, ys: Seq<GEntry>)
    ensures
        total_gsize(xs + ys) == total_gsize(xs) + total_gsize(ys),
    decreases ys.len(),
{
    if ys.len() == 0 {
        assert(xs + ys =~= xs);
    } else {
        lemma_total_gsize_concat(xs, ys.drop_last());
        assert((xs + ys).drop_last() =~= xs + ys.drop_last());
        assert((xs + ys).last() == ys.last());
    }
}

proof fn lemma_vals_of_size(s: Seq<CastView>)
    ensures
        total_gsize(vals_of(s)) == csize_list(s),
    decreases s.len(),
{
    if s.len() == 0 {
    } else {
        lemma_vals_of_size(s.drop_last());
        assert(vals_of(s).drop_last() =~= vals_of(s.drop_last()));
        assert(vals_of(s).last() == GEntry::Val(s.last()));
        lemma_csize_list_snoc(s);
    }
}

/// After converting the top value into a freshly allocated (or existing)
/// node, the machine is one operation further along the same run.
proof fn lemma_convert_alloc_step(
    a1: Arena,
    a2: Arena,
    s_pre: Seq<BuildEntry>,
    s_post: Seq<BuildEntry>,
    ops_pre: Seq<SexpStackOp>,
    gv: CastView,
    h: SExp,
    goal: Tree,
)
    requires
        a2.extends(a1),
        bstack_wf(a1, s_pre),
        s_pre.len() > 0,
        abs_entry(a1, s_pre.last()) == GEntry::Val(gv),
        s_post =~= s_pre.drop_last().push(BuildEntry::Done(h)),
        a2.contains(h),
        a2.tree(h) == glift(gv),
        ops_pre.len() > 0,
        ops_pre.last() == SexpStackOp::OpConvert,
        bfinish(abs_stack(a1, s_pre), ops_pre) == Some(goal),
    ensures
        bstack_wf(a2, s_post),
        bfinish(abs_stack(a2, s_post), ops_pre.drop_last()) == Some(goal),
        total_gsize(abs_stack(a2, s_post)) < total_gsize(abs_stack(a1, s_pre)),
{
    let gs_pre = abs_stack(a1, s_pre);
    lemma_abs_stack_drop(a1, s_pre);
    lemma_abs_stack_extends(a1, a2, s_pre.drop_last());
    lemma_abs_stack_push(a2, s_pre.drop_last(), BuildEntry::Done(h));
    assert(abs_stack(a2, s_post) =~= abs_stack(a2, s_pre.drop_last()).push(
        GEntry::Done(glift(gv)),
    ));
    let gs_post = abs_stack(a2, s_post);
    assert(gs_pre.last() == GEntry::Val(gv));
    assert(gs_pre.update(gs_pre.len() - 1, GEntry::Done(glift(gv))) =~= gs_post);
    assert(bfinish(gs_pre, ops_pre) == bfinish(
        gs_pre.update(gs_pre.len() - 1, GEntry::Done(glift(gv))),
        ops_pre.drop_last(),
    ));
    lemma_total_gsize_update(gs_pre, gs_pre.len() - 1, GEntry::Done(glift(gv)));
    assert(csize(gv) >= 1);
}

/// Splicing a finished left child into its reserved slot.
proof fn lemma_setpair_left_step(
    a: Arena,
    s_pre: Seq<BuildEntry>,
    s_post: Seq<BuildEntry>,
    ops_pre: Seq<SexpStackOp>,
    h: SExp,
    or: Option<SExp>,
    target: usize,
    goal: Tree,
)
    requires
        bstack_wf(a, s_pre),
        a.contains(h),
        s_pre.len() > 0,
        s_pre.last() == BuildEntry::Done(h),
        (target as int) < s_pre.len() - 1,
        s_pre[target as int] matches BuildEntry::Pend(x, y) && y == or,
        s_post =~= s_pre.drop_last().update(target as int, BuildEntry::Pend(Some(h), or)),
        ops_pre.len() > 0,
        ops_pre.last() == SexpStackOp::OpSetPair(false, target),
        bfinish(abs_stack(a, s_pre), ops_pre) == Some(goal),
    ensures
        bstack_wf(a, s_post),
        bfinish(abs_stack(a, s_post), ops_pre.drop_last()) == Some(goal),
        total_gsize(abs_stack(a, s_post)) == total_gsize(abs_stack(a, s_pre)),
{
    let gs_pre = abs_stack(a, s_pre);
    let t = target as int;
    lemma_abs_stack_drop(a, s_pre);
    assert(entry_wf(a, s_pre[t])) by {
        assert(bstack_wf(a, s_pre));
    }
    lemma_abs_stack_update(a, s_pre.drop_last(), t, BuildEntry::Pend(Some(h), or));
    assert(s_pre.drop_last()[t] == s_pre[t]);
    let ge = GEntry::Pend(Some(a.tree(h)), abs_opt(a, or));
    assert(abs_stack(a, s_post) =~= gs_pre.drop_last().update(t, ge));
    assert(gs_pre.last() == GEntry::Done(a.tree(h)));
    assert(gs_pre[t] == abs_entry(a, s_pre[t]));
    assert(gs_pre[t] matches GEntry::Pend(l0, r0) && r0 == abs_opt(a, or));
    assert(bfinish(gs_pre, ops_pre) == bfinish(
        gs_pre.drop_last().update(t, ge),
        ops_pre.drop_last(),
    ));
    lemma_setpair_measure(gs_pre, t, ge);
}

/// Splicing a finished right child completes the pair: the reserved slot
/// becomes a freshly allocated pair node.
proof fn lemma_setpair_right_step(
    a1: Arena,
    a2: Arena,
    s_pre: Seq<BuildEntry>,
    s_post: Seq<BuildEntry>,
    ops_pre: Seq<SexpStackOp>,
    l: SExp,
    h: SExp,
    ph: SExp,
    target: usize,
    goal: Tree,
)
    requires
        a2.extends(a1),
        bstack_wf(a1, s_pre),
        a1.contains(h),
        a1.contains(l),
        s_pre.len() > 0,
        s_pre.last() == BuildEntry::Done(h),
        (target as int) < s_pre.len() - 1,
        s_pre[target as int] matches BuildEntry::Pend(x, y) && x == Some(l),
        s_post =~= s_pre.drop_last().update(target as int, BuildEntry::Done(ph)),
        a2.contains(ph),
        a2.tree(ph) == Tree::Pair(Box::new(a1.tree(l)), Box::new(a1.tree(h))),
        ops_pre.len() > 0,
        ops_pre.last() == SexpStackOp::OpSetPair(true, target),
        bfinish(abs_stack(a1, s_pre), ops_pre) == Some(goal),
    ensures
        bstack_wf(a2, s_post),
        bfinish(abs_stack(a2, s_post), ops_pre.drop_last()) == Some(goal),
        total_gsize(abs_stack(a2, s_post)) == total_gsize(abs_stack(a1, s_pre)),
{
    let gs_pre = abs_stack(a1, s_pre);
    let t = target as int;
    lemma_abs_stack_drop(a1, s_pre);
    lemma_abs_stack_extends(a1, a2, s_pre.drop_last());
    lemma_abs_stack_update(a2, s_pre.drop_last(), t, BuildEntry::Done(ph));
    assert(s_pre.drop_last()[t] == s_pre[t]);
    let pair = Tree::Pair(Box::new(a1.tree(l)), Box::new(a1.tree(h)));
    let ge = GEntry::Done(pair);
    assert(abs_stack(a2, s_post) =~= gs_pre.drop_last().update(t, ge));
    assert(gs_pre.last() == GEntry::Done(a1.tree(h)));
    assert(gs_pre[t] == abs_entry(a1, s_pre[t]));
    assert(gs_pre[t] matches GEntry::Pend(l0, r0) && l0 == Some(a1.tree(l)));
    assert(bfinish(gs_pre, ops_pre) == bfinish(
        gs_pre.drop_last().update(t, ge),
        ops_pre.drop_last(),
    ));
    lemma_setpair_measure(gs_pre, t, ge);
}

/// Prepending a finished item onto a list under construction.
proof fn lemma_prepend_step(
    a1: Arena,
    a2: Arena,
    s_pre: Seq<BuildEntry>,
    s_post: Seq<BuildEntry>,
    ops_pre: Seq<SexpStackOp>,
    f: SExp,
    o: SExp,
    ph: SExp,
    target: usize,
    goal: Tree,
)
    requires
        a2.extends(a1),
        bstack_wf(a1, s_pre),
        a1.contains(f),
        a1.contains(o),
        s_pre.len() > 0,
        s_pre.last() == BuildEntry::Done(f),
        (target as int) < s_pre.len() - 1,
        s_pre[target as int] == BuildEntry::Done(o),
        s_post =~= s_pre.drop_last().update(target as int, BuildEntry::Done(ph)),
        a2.contains(ph),
        a2.tree(ph) == Tree::Pair(Box::new(a1.tree(f)), Box::new(a1.tree(o))),
        ops_pre.len() > 0,
        ops_pre.last() == SexpStackOp::OpPrepend(target),
        bfinish(abs_stack(a1, s_pre), ops_pre) == Some(goal),
    ensures
        bstack_wf(a2, s_post),
        bfinish(abs_stack(a2, s_post), ops_pre.drop_last()) == Some(goal),
        total_gsize(abs_stack(a2, s_post)) == total_gsize(abs_stack(a1, s_pre)),
{
    let gs_pre = abs_stack(a1, s_pre);
    let t = target as int;
    lemma_abs_stack_drop(a1, s_pre);
    lemma_abs_stack_extends(a1, a2, s_pre.drop_last());
    lemma_abs_stack_update(a2, s_pre.drop_last(), t, BuildEntry::Done(ph));
    assert(s_pre.drop_last()[t] == s_pre[t]);
    let pair = Tree::Pair(Box::new(a1.tree(f)), Box::new(a1.tree(o)));
    let ge = GEntry::Done(pair);
    assert(abs_stack(a2, s_post) =~= gs_pre.drop_last().update(t, ge));
    assert(gs_pre.last() == GEntry::Done(a1.tree(f)));
    assert(gs_pre[t] == abs_entry(a1, s_pre[t]));
    assert(gs_pre[t] == GEntry::Done(a1.tree(o)));
    assert(bfinish(gs_pre, ops_pre) == bfinish(
        gs_pre.drop_last().update(t, ge),
        ops_pre.drop_last(),
    ));
    lemma_setpair_measure(gs_pre, t, ge);
}

/// Expanding a tuple trades its wrapper for its two children: strictly
/// less work remains.
proof fn lemma_measure_expand(gs_pre: Seq<GEntry>, gs_post: Seq<GEntry>, gv: CastView)
    requires
        gs_pre.len() > 0,
        gs_pre.last() == GEntry::Val(gv),
        gv matches CastView::Pair(x, y) && gs_post =~= gs_pre.drop_last().push(
            GEntry::Pend(None, None),
        ).push(GEntry::Val(*y)).push(GEntry::Val(*x)),
    ensures
        total_gsize(gs_post) < total_gsize(gs_pre),
{
    let d = gs_pre.drop_last();
    match gv {
        CastView::Pair(x, y) => {
            lemma_total_gsize_push(d, GEntry::Pend(None, None));
            lemma_total_gsize_push(d.push(GEntry::Pend(None, None)), GEntry::Val(*y));
            lemma_total_gsize_push(
                d.push(GEntry::Pend(None, None)).push(GEntry::Val(*y)),
                GEntry::Val(*x),
            );
            assert(total_gsize(gs_pre) == csize(gv) + total_gsize(d));
        },
        _ => {},
    }
}

/// Lower a host value into a canonical tree in the arena. Always succeeds
/// on a value whose subtree handles belong to the arena; the error paths
/// guard internal invariants that such input cannot break.
#[verifier::loop_isolation(false)]
pub fn to_sexp_type(a: &mut Arena, value: CastableType) -> (r: Result<SExp, BuildError>)
    requires
        old(a).wf(),
        castable_wf(*old(a), value),
    ensures
        final(a).wf(),
        final(a).extends(*old(a)),
        r matches Ok(h) && final(a).contains(h) && final(a).tree(h) == lift(*old(a), value),
{
    let ghost a0 = *old(a);
    let ghost goal = lift(a0, value);
    let mut stack: Vec<BuildEntry> = Vec::new();
    let mut ops: Vec<SexpStackOp> = Vec::new();
    stack.push(BuildEntry::Val(value));
    ops.push(SexpStackOp::OpConvert);
    proof {
        assert(a.extends(a0)) by {
            assert forall|h: SExp| #[trigger] a0.contains(h) implies a.contains(h) && a.tree(h)
                == a0.tree(h) by {}
        }
        let gs = abs_stack(*a, stack@);
        assert(stack@[0] == BuildEntry::Val(value));
        assert(gs.len() == 1 && gs[0] == GEntry::Val(abs_cast(a0, value)));
        assert(gs.last() == gs[0] && ops@.last() == SexpStackOp::OpConvert);
        assert(ops@.drop_last() =~= Seq::<SexpStackOp>::empty());
        let gs1 = gs.update(0, GEntry::Done(goal));
        assert(bfinish(gs, ops@) == bfinish(gs1, ops@.drop_last()));
        assert(gs1.len() == 1 && gs1[0] == GEntry::Done(goal));
        assert(bfinish(gs1, Seq::<SexpStackOp>::empty()) == Some(goal));
        assert(bstack_wf(*a, stack@)) by {
            assert forall|i: int| 0 <= i < stack@.len() implies entry_wf(
                *a,
                #[trigger] stack@[i],
            ) by {
                assert(stack@[i] == BuildEntry::Val(value));
            }
        }
    }
    while ops.len() > 0
        invariant
            a.wf(),
            a.extends(a0),
            bstack_wf(*a, stack@),
            bfinish(abs_stack(*a, stack@), ops@) == Some(goal),
        decreases total_gsize(abs_stack(*a, stack@)), ops@.len(),
    {
        let ghost s_pre = stack@;
        let ghost gs_pre = abs_stack(*a, stack@);
        let ghost ops_pre = ops@;
        let op = match ops.pop() {
            Some(op) => op,
            None => {
                return Err(BuildError::EmptyStack);
            },
        };
        proof {
            assert(op == ops_pre.last());
            assert(ops@ == ops_pre.drop_last());
        }
        match op {
            SexpStackOp::OpConvert => {
                let top = match stack.pop() {
                    Some(t) => t,
                    None => {
                        proof {
                            assert(gs_pre.len() == 0);
                            assert(bfinish(gs_pre, ops_pre) is None);
                        }
                        return Err(BuildError::EmptyStack);
                    },
                };
                proof {
                    assert(top == s_pre.last());
                    assert(stack@ == s_pre.drop_last());
                    lemma_abs_stack_drop(*a, s_pre);
                    assert(gs_pre.last() == abs_entry(*a, top));
                }
                match top {
                    BuildEntry::Done(h) => {
                        stack.push(BuildEntry::Done(h));
                        proof {
                            lemma_abs_stack_push(*a, stack@.drop_last(), BuildEntry::Done(h));
                            assert(stack@ =~= s_pre);
                            assert(abs_stack(*a, stack@) =~= gs_pre);
                            assert(bfinish(gs_pre, ops@) == bfinish(gs_pre, ops_pre));
                        }
                    },
                    BuildEntry::Pend(ol, or) => {
                        proof {
                            assert(bfinish(gs_pre, ops_pre) is None);
                        }
                        return Err(BuildError::Malformed);
                    },
                    BuildEntry::Val(v) => {
                        let ghost gv = abs_cast(*a, v);
                        match v {
                            CastableType::CLVMObject(h) => {
                                stack.push(BuildEntry::Done(h));
                                proof {
                                    crate::arena::lemma_extends_refl(*a);
                                    lemma_convert_alloc_step(
                                        *a,
                                        *a,
                                        s_pre,
                                        stack@,
                                        ops_pre,
                                        gv,
                                        h,
                                        goal,
                                    );
                                }
                            },
                            CastableType::Bytes(b) => {
                                let ghost a_pre = *a;
                                let h = a.new_atom(b);
                                stack.push(BuildEntry::Done(h));
                                proof {
                                    crate::arena::lemma_extends_trans(a0, a_pre, *a);
                                    lemma_convert_alloc_step(
                                        a_pre,
                                        *a,
                                        s_pre,
                                        stack@,
                                        ops_pre,
                                        gv,
                                        h,
                                        goal,
                                    );
                                }
                            },
                            CastableType::String(s) => {
                                let bytes = vstd::slice::slice_to_vec(s.as_str().as_bytes());
                                let ghost a_pre = *a;
                                let h = a.new_atom(bytes);
                                stack.push(BuildEntry::Done(h));
                                proof {
                                    crate::arena::lemma_extends_trans(a0, a_pre, *a);
                                    lemma_convert_alloc_step(
                                        a_pre,
                                        *a,
                                        s_pre,
                                        stack@,
                                        ops_pre,
                                        gv,
                                        h,
                                        goal,
                                    );
                                }
                            },
                            CastableType::Number(n) => {
                                let bytes = n.to_bytes();
                                let ghost a_pre = *a;
                                let h = a.new_atom(bytes);
                                stack.push(BuildEntry::Done(h));
                                proof {
                                    crate::arena::lemma_extends_trans(a0, a_pre, *a);
                                    lemma_convert_alloc_step(
                                        a_pre,
                                        *a,
                                        s_pre,
                                        stack@,
                                        ops_pre,
                                        gv,
                                        h,
                                        goal,
                                    );
                                }
                            },
                            CastableType::G1Affine(g) => {
                                let bytes = g.to_bytes();
                                let ghost a_pre = *a;
                                let h = a.new_atom(bytes);
                                stack.push(BuildEntry::Done(h));
                                proof {
                                    crate::arena::lemma_extends_trans(a0, a_pre, *a);
                                    lemma_convert_alloc_step(
                                        a_pre,
                                        *a,
                                        s_pre,
                                        stack@,
                                        ops_pre,
                                        gv,
                                        h,
                                        goal,
                                    );
                                }
                            },
                            CastableType::TupleOf(x, y) => {
                                let target = stack.len();
                                let ghost gx = abs_cast(*a, *x);
                                let ghost gy = abs_cast(*a, *y);
                                stack.push(BuildEntry::Pend(None, None));
                                stack.push(BuildEntry::Val(*y));
                                ops.push(SexpStackOp::OpSetPair(true, target));
                                ops.push(SexpStackOp::OpConvert);
                                stack.push(BuildEntry::Val(*x));
                                ops.push(SexpStackOp::OpSetPair(false, target));
                                ops.push(SexpStackOp::OpConvert);
                                proof {
                                    let d = s_pre.drop_last();
                                    assert(stack@ =~= d.push(BuildEntry::Pend(None, None)).push(
                                        BuildEntry::Val(*y),
                                    ).push(BuildEntry::Val(*x)));
                                    lemma_abs_stack_push(*a, d, BuildEntry::Pend(None, None));
                                    lemma_abs_stack_push(
                                        *a,
                                        d.push(BuildEntry::Pend(None, None)),
                                        BuildEntry::Val(*y),
                                    );
                                    lemma_abs_stack_push(
                                        *a,
                                        d.push(BuildEntry::Pend(None, None)).push(
                                            BuildEntry::Val(*y),
                                        ),
                                        BuildEntry::Val(*x),
                                    );
                                    assert(abs_stack(*a, stack@) =~= gs_pre.drop_last().push(
                                        GEntry::Pend(None, None),
                                    ).push(GEntry::Val(gy)).push(GEntry::Val(gx)));
                                    assert(gv == CastView::Pair(Box::new(gx), Box::new(gy)));
                                    assert(gs_pre.last() == GEntry::Val(gv));
                                    assert(target as int == gs_pre.len() - 1);
                                    lemma_bfinish_tuple_expand(gs_pre, ops_pre, gx, gy, target);
                                    assert(ops@ =~= ops_pre.drop_last().push(
                                        SexpStackOp::OpSetPair(true, target),
                                    ).push(SexpStackOp::OpConvert).push(
                                        SexpStackOp::OpSetPair(false, target),
                                    ).push(SexpStackOp::OpConvert));
                                    // the measure strictly shrinks
                                    lemma_measure_expand(gs_pre, abs_stack(*a, stack@), gv);
                                }
                            },
                            CastableType::ListOf(items) => {
                                let target = stack.len();
                                let ghost items0 = items@;
                                let ghost a_pre = *a;
                                let ghost gitems = abs_cast_list(a_pre, items0);
                                let nil_h = a.null();
                                let ghost a_now = *a;
                                stack.push(BuildEntry::Done(nil_h));
                                let ghost sbase = stack@;
                                let ghost obase = ops@;
                                let mut items = items;
                                proof {
                                    crate::arena::lemma_extends_trans(a0, a_pre, *a);
                                    assert(castable_wf_list(a_pre, items0));
                                    lemma_abs_stack_extends(a_pre, *a, s_pre);
                                    lemma_abs_cast_list_extends(a_pre, *a, items0);
                                    lemma_abs_stack_drop(*a, s_pre);
                                    lemma_abs_stack_push(
                                        *a,
                                        s_pre.drop_last(),
                                        BuildEntry::Done(nil_h),
                                    );
                                    lemma_abs_cast_list_index(*a, items0);
                                }
                                while items.len() > 0
                                    invariant
                                        a.wf(),
                                        *a == a_now,
                                        items0.len() >= items@.len(),
                                        items@ =~= items0.skip(items0.len() - items@.len()),
                                        stack@.len() == sbase.len() + (items0.len()
                                            - items@.len()),
                                        forall|i: int|
                                            0 <= i < sbase.len() ==> #[trigger] stack@[i]
                                                == sbase[i],
                                        forall|i: int|
                                            sbase.len() <= i < stack@.len()
                                                ==> #[trigger] stack@[i] == BuildEntry::Val(
                                                items0[i - sbase.len()],
                                            ),
                                        ops@.len() == obase.len() + 2 * (items0.len()
                                            - items@.len()),
                                        forall|i: int|
                                            0 <= i < obase.len() ==> #[trigger] ops@[i]
                                                == obase[i],
                                        forall|i: int|
                                            obase.len() <= i < ops@.len() ==> #[trigger] ops@[i]
                                                == (if (i - obase.len()) % 2 == 0 {
                                                SexpStackOp::OpPrepend(target)
                                            } else {
                                                SexpStackOp::OpConvert
                                            }),
                                    decreases items@.len(),
                                {
                                    let ghost j = items0.len() - items@.len();
                                    let item = items.remove(0);
                                    proof {
                                        assert(item == items0[j as int]);
                                        assert(items@ =~= items0.skip(j + 1));
                                    }
                                    stack.push(BuildEntry::Val(item));
                                    ops.push(SexpStackOp::OpPrepend(target));
                                    ops.push(SexpStackOp::OpConvert);
                                }
                                proof {
                                    let n = items0.len();
                                    let gbase = abs_stack(*a, sbase);
                                    // the stacks now hold the scheduled run
                                    assert(abs_stack(*a, stack@) =~= gbase + vals_of(gitems)) by {
                                        assert forall|i: int|
                                            0 <= i < stack@.len() implies abs_stack(*a, stack@)[i]
                                            == (gbase + vals_of(gitems))[i] by {
                                            if i < sbase.len() {
                                                assert(stack@[i] == sbase[i]);
                                            } else {
                                                assert(stack@[i] == BuildEntry::Val(
                                                    items0[i - sbase.len()],
                                                ));
                                                assert(gitems[i - sbase.len()] == abs_cast(
                                                    *a,
                                                    items0[i - sbase.len()],
                                                ));
                                            }
                                        }
                                    }
                                    assert(ops@ =~= obase + rep_ops(target, n)) by {
                                        assert forall|i: int|
                                            0 <= i < ops@.len() implies ops@[i] == (obase
                                            + rep_ops(target, n))[i] by {
                                            if i < obase.len() {
                                            } else {
                                                assert(ops@[obase.len() + (i - obase.len())] == (
                                                if (i - obase.len()) % 2 == 0 {
                                                    SexpStackOp::OpPrepend(target)
                                                } else {
                                                    SexpStackOp::OpConvert
                                                }));
                                            }
                                        }
                                    }
                                    // run the schedule in one spec step
                                    assert(sbase =~= s_pre.drop_last().push(
                                        BuildEntry::Done(nil_h),
                                    ));
                                    assert(gbase =~= abs_stack(*a, s_pre.drop_last()).push(
                                        GEntry::Done(Tree::nil()),
                                    ));
                                    assert(gbase.last() == GEntry::Done(Tree::nil()));
                                    assert(target as int == gbase.len() - 1);
                                    lemma_bfinish_prepend_run(
                                        gbase,
                                        obase,
                                        target,
                                        gitems,
                                        Tree::nil(),
                                    );
                                    // which is exactly the one-step conversion of the list
                                    let gs_pre2 = abs_stack(a_pre, s_pre);
                                    assert(gv == CastView::List(gitems));
                                    assert(glift_fold(gitems, Tree::nil()) == glift(gv));
                                    assert(gbase.update(target as int, GEntry::Done(glift(gv)))
                                        =~= gs_pre2.update(
                                        gs_pre2.len() - 1,
                                        GEntry::Done(glift(gv)),
                                    )) by {
                                        assert(abs_stack(*a, s_pre.drop_last()) =~= abs_stack(
                                            a_pre,
                                            s_pre,
                                        ).drop_last()) by {
                                            lemma_abs_stack_drop(a_pre, s_pre);
                                            lemma_abs_stack_extends(a_pre, *a, s_pre.drop_last());
                                        }
                                    }
                                    assert(gs_pre2.last() == GEntry::Val(gv));
                                    assert(bfinish(gs_pre2, ops_pre) == bfinish(
                                        gs_pre2.update(gs_pre2.len() - 1, GEntry::Done(glift(gv))),
                                        obase,
                                    ));
                                    assert(bfinish(abs_stack(*a, stack@), ops@) == Some(goal));
                                    // the well-formedness of every new entry
                                    assert(bstack_wf(*a, stack@)) by {
                                        assert(bstack_wf(*a, sbase));
                                        assert forall|i: int|
                                            0 <= i < stack@.len() implies entry_wf(
                                            *a,
                                            #[trigger] stack@[i],
                                        ) by {
                                            if i < sbase.len() {
                                                assert(stack@[i] == sbase[i]);
                                            } else {
                                                assert(stack@[i] == BuildEntry::Val(
                                                    items0[i - sbase.len()],
                                                ));
                                                assert(castable_wf(
                                                    *a,
                                                    items0[i - sbase.len()],
                                                ));
                                            }
                                        }
                                    }
                                    // and the measure shrinks by the list wrapper itself
                                    lemma_total_gsize_concat(gbase, vals_of(gitems));
                                    lemma_vals_of_size(gitems);
                                    lemma_total_gsize_push(
                                        abs_stack(*a, s_pre.drop_last()),
                                        GEntry::Done(Tree::nil()),
                                    );
                                    let gs_head = abs_stack(a_pre, s_pre);
                                    assert(total_gsize(gs_head) == total_gsize(
                                        gs_head.drop_last(),
                                    ) + csize(gv)) by {
                                        assert(gs_head.last() == GEntry::Val(gv));
                                    }
                                    assert(csize(gv) == 1 + csize_list(gitems));
                                    assert(total_gsize(abs_stack(*a, stack@)) < total_gsize(
                                        gs_head,
                                    ));
                                }
                            },
                        }
                    },
                }
            },
            SexpStackOp::OpSetPair(toset, target) => {
                let top = match stack.pop() {
                    Some(t) => t,
                    None => {
                        proof {
                            assert(gs_pre.len() == 0);
                        }
                        return Err(BuildError::EmptyStack);
                    },
                };
                proof {
                    assert(top == s_pre.last());
                    assert(stack@ == s_pre.drop_last());
                    lemma_abs_stack_drop(*a, s_pre);
                    assert(gs_pre.last() == abs_entry(*a, top));
                }
                let h = match top {
                    BuildEntry::Done(h) => h,
                    _ => {
                        proof {
                            assert(bfinish(gs_pre, ops_pre) is None);
                        }
                        return Err(BuildError::Malformed);
                    },
                };
                if target >= stack.len() {
                    proof {
                        assert(bfinish(gs_pre, ops_pre) is None);
                    }
                    return Err(BuildError::Malformed);
                }
                let (ol, or) = match &stack[target] {
                    BuildEntry::Pend(ol, or) => (*ol, *or),
                    _ => {
                        proof {
                            assert(abs_stack(*a, stack@)[target as int] == abs_entry(
                                *a,
                                stack@[target as int],
                            ));
                            assert(gs_pre[target as int] == abs_entry(*a, s_pre[target as int]));
                            assert(bfinish(gs_pre, ops_pre) is None);
                        }
                        return Err(BuildError::Malformed);
                    },
                };
                proof {
                    assert(gs_pre[target as int] == GEntry::Pend(abs_opt(*a, ol), abs_opt(*a, or)))
                        by {
                        assert(gs_pre[target as int] == abs_entry(*a, s_pre[target as int]));
                    }
                }
                if !toset {
                    stack[target] = BuildEntry::Pend(Some(h), or);
                    proof {
                        lemma_setpair_left_step(*a, s_pre, stack@, ops_pre, h, or, target, goal);
                    }
                } else {
                    let l = match ol {
                        Some(l) => l,
                        None => {
                            proof {
                                assert(bfinish(gs_pre, ops_pre) is None);
                            }
                            return Err(BuildError::Malformed);
                        },
                    };
                    let ghost a_pre = *a;
                    let ph = a.new_pair(l, h);
                    stack[target] = BuildEntry::Done(ph);
                    proof {
                        crate::arena::lemma_extends_trans(a0, a_pre, *a);
                        lemma_setpair_right_step(
                            a_pre,
                            *a,
                            s_pre,
                            stack@,
                            ops_pre,
                            l,
                            h,
                            ph,
                            target,
                            goal,
                        );
                    }
                }
            },
            SexpStackOp::OpPrepend(target) => {
                let top = match stack.pop() {
                    Some(t) => t,
                    None => {
                        proof {
                            assert(gs_pre.len() == 0);
                        }
                        return Err(BuildError::EmptyStack);
                    },
                };
                proof {
                    assert(top == s_pre.last());
                    assert(stack@ == s_pre.drop_last());
                    lemma_abs_stack_drop(*a, s_pre);
                    assert(gs_pre.last() == abs_entry(*a, top));
                }
                let f = match top {
                    BuildEntry::Done(h) => h,
                    _ => {
                        proof {
                            assert(bfinish(gs_pre, ops_pre) is None);
                        }
                        return Err(BuildError::EmptyStack);
                    },
                };
                if target >= stack.len() {
                    proof {
                        assert(bfinish(gs_pre, ops_pre) is None);
                    }
                    return Err(BuildError::Malformed);
                }
                let o = match &stack[target] {
                    BuildEntry::Done(o) => *o,
                    _ => {
                        proof {
                            assert(gs_pre[target as int] == abs_entry(*a, s_pre[target as int]));
                            assert(bfinish(gs_pre, ops_pre) is None);
                        }
                        return Err(BuildError::Malformed);
                    },
                };
                let ghost a_pre = *a;
                let ph = a.new_pair(f, o);
                stack[target] = BuildEntry::Done(ph);
                proof {
                    crate::arena::lemma_extends_trans(a0, a_pre, *a);
                    lemma_prepend_step(a_pre, *a, s_pre, stack@, ops_pre, f, o, ph, target, goal);
                }
            },
        }
    }
    let ghost s_fin = stack@;
    proof {
        assert(bfinish(abs_stack(*a, s_fin), ops@) == Some(goal));
        assert(s_fin.len() == 1);
        assert(abs_stack(*a, s_fin)[0] == abs_entry(*a, s_fin[0]));
    }
    match stack.pop() {
        Some(BuildEntry::Done(h)) => {
            proof {
                assert(s_fin.last() == s_fin[0]);
                assert(abs_entry(*a, s_fin[0]) == GEntry::Done(a.tree(h)));
            }
            Ok(h)
        },
        Some(_) => {
            proof {
                assert(abs_entry(*a, s_fin[0]) is Done);
            }
            Err(BuildError::Malformed)
        },
        None => Err(BuildError::EmptyStack),
    }
}

} // verus!
