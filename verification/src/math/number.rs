use vstd::prelude::*;

verus! {

/// A binary operation on numbers written as text.
#[derive(Debug, Clone, Copy, PartialEq, Eq, Structural)]
pub enum NumOp {
    Add,
    Mul,
    Pow,
}

/// `f` can answer `op` on the operands written `a` and `b` with the text `r`.
pub open spec fn produces<F: Fn(NumOp, &String, &String) -> String>(
    f: F,
    op: NumOp,
    a: Seq<char>,
    b: Seq<char>,
    r: Seq<char>,
) -> bool {
    exists|x: String, y: String, z: String|
        #![trigger call_ensures(f, (op, &x, &y), z)]
        x@ == a && y@ == b && z@ == r && call_ensures(f, (op, &x, &y), z)
}

/// A numeric back end can always be called, and answers each question with
/// one text, whichever strings carry the operands.
pub open spec fn well_behaved<F: Fn(NumOp, &String, &String) -> String>(f: F) -> bool {
    &&& forall|op: NumOp, x: &String, y: &String| call_requires(f, (op, x, y))
    &&& forall|op: NumOp, a: Seq<char>, b: Seq<char>, r1: Seq<char>, r2: Seq<char>|
        #![trigger produces(f, op, a, b, r1), produces(f, op, a, b, r2)]
        produces(f, op, a, b, r1) && produces(f, op, a, b, r2) ==> r1 == r2
}

/// The function on number texts that a numeric back end computes.
pub open spec fn arith_spec<F: Fn(NumOp, &String, &String) -> String>(f: F) -> spec_fn(
    NumOp,
    Seq<char>,
    Seq<char>,
) -> Seq<char> {
    |op: NumOp, a: Seq<char>, b: Seq<char>| choose|r: Seq<char>| produces(f, op, a, b, r)
}

/// Asks the numeric back end for `a op b`.
pub fn apply_op<F: Fn(NumOp, &String, &String) -> String>(
    arith: &F,
    op: NumOp,
    a: &String,
    b: &String,
) -> (r: String)
    requires
        well_behaved(*arith),
    ensures
        r@ == arith_spec(*arith)(op, a@, b@),
{
    let r = arith(op, a, b);
    assert(produces(*arith, op, a@, b@, r@));
    r
}

} // verus!
