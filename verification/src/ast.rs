//! The expression tree a formula parses into.

use vstd::prelude::*;
use crate::reference::Reference;
use crate::vecset::contains_ref;

verus! {

/// A binary arithmetic operator.
#[derive(Clone, Copy, Debug, PartialEq, Eq, Structural)]
pub enum Opcode {
    Mul,
    Div,
    Add,
    Sub,
}

/// An immutable expression tree. Subtrees are exclusively owned and never
/// shared or patched in place; re-entering a formula parses it anew.
#[derive(Debug, PartialEq)]
pub enum Expr {
    /// An integer literal.
    Literal(i64),
    /// The value of another cell.
    Reference(Reference),
    /// A binary operation on two subexpressions.
    Op(Box<Expr>, Opcode, Box<Expr>),
}

/// The set of distinct cells an expression mentions.
pub open spec fn spec_references(e: Expr) -> Set<Reference>
    decreases e,
{
    match e {
        Expr::Literal(_) => Set::empty(),
        Expr::Reference(r) => Set::empty().insert(r),
        Expr::Op(l, _, r) => spec_references(*l).union(spec_references(*r)),
    }
}

fn collect_references(e: &Expr, out: &mut Vec<Reference>)
    requires
        old(out)@.no_duplicates(),
    ensures
        final(out)@.no_duplicates(),
        forall|r: Reference|
            #![trigger final(out)@.contains(r)]
            #![trigger old(out)@.contains(r)]
            final(out)@.contains(r) <==> old(out)@.contains(r) || spec_references(*e).contains(
                r,
            ),
    decreases *e,
{
    let ghost out0 = out@;
    match e {
        Expr::Literal(_) => {
            proof {
                assert(spec_references(*e) =~= Set::<Reference>::empty());
            }
        },
        Expr::Reference(r) => {
            proof {
                assert(spec_references(*e) =~= Set::<Reference>::empty().insert(*r));
            }
            let already = contains_ref(out, *r);
            if !already {
                out.push(*r);
                proof {
                    assert forall|x: Reference| #[trigger] out@.contains(x) implies out0.contains(
                        x,
                    ) || x == *r by {
                        let j = choose|j: int| 0 <= j < out@.len() && out@[j] == x;
                        if j < out@.len() - 1 {
                            assert(out0[j] == x);
                        }
                    }
                    assert forall|x: Reference|
                        out0.contains(x) || x == *r implies #[trigger] out@.contains(x) by {
                        if out0.contains(x) {
                            let j = choose|j: int| 0 <= j < out0.len() && out0[j] == x;
                            assert(out@[j] == x);
                        } else {
                            assert(out@[out@.len() - 1] == x);
                        }
                    }
                }
            }
        },
        Expr::Op(l, _, r) => {
            proof {
                assert(spec_references(*e) =~= spec_references(**l).union(spec_references(**r)));
            }
            collect_references(l, out);
            collect_references(r, out);
        },
    }
}

impl Expr {
    /// Collects the set of distinct cells this expression references, used
    /// to maintain the dependency graph. Order is irrelevant; duplicates
    /// collapse.
    pub fn find_references(&self) -> (v: Vec<Reference>)
        ensures
            v@.no_duplicates(),
            forall|r: Reference| v@.contains(r) <==> spec_references(*self).contains(r),
    {
        let mut out: Vec<Reference> = Vec::new();
        collect_references(self, &mut out);
        out
    }
}

} // verus!
