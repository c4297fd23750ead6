//! Contracts for the `smallvec` vectors that hold the postfix node sequence
//! and the parser's and evaluator's stacks.
//!
//! Verus cannot declare `smallvec::SmallVec` itself (its generics are bound
//! by the crate's `Array` trait), so each instantiation the crate uses is
//! held in a private field of an opaque struct here. One name per struct
//! says what the vector holds; one wrapper per method the crate calls states
//! over that name what the method does to the contents, exactly as
//! `smallvec`'s source shows.

use crate::expression::ExprNode;
use crate::parser::OpAndSpan;
use vstd::prelude::*;

verus! {

/// The postfix node sequence under construction or in a parsed expression,
/// stored in a `smallvec::SmallVec<[ExprNode; 5]>`.
#[verifier::external_body]
#[derive(Debug)]
pub struct NodeVec {
    inner: smallvec::SmallVec<[ExprNode; 5]>,
}

/// The parser's operator stack, stored in a
/// `smallvec::SmallVec<[OpAndSpan; 3]>`.
#[verifier::external_body]
pub struct OpVec {
    inner: smallvec::SmallVec<[OpAndSpan; 3]>,
}

/// The evaluator's result stack, stored in a
/// `smallvec::SmallVec<[bool; 8]>`.
#[verifier::external_body]
pub struct BoolVec {
    inner: smallvec::SmallVec<[bool; 8]>,
}

/// The elements of a node vector, in order.
pub uninterp spec fn node_elems(v: NodeVec) -> Seq<ExprNode>;

/// The elements of an operator-stack vector, in order (bottom first).
pub uninterp spec fn op_elems(v: OpVec) -> Seq<OpAndSpan>;

/// The elements of a boolean-stack vector, in order (bottom first).
pub uninterp spec fn bool_elems(v: BoolVec) -> Seq<bool>;

/// Relies on smallvec::SmallVec::new: constructs an empty vector.
#[verifier::external_body]
pub fn node_vec_new() -> (r: NodeVec)
    ensures
        node_elems(r) == Seq::<ExprNode>::empty(),
{
    NodeVec { inner: smallvec::SmallVec::new() }
}

/// Relies on smallvec::SmallVec::push: appends the item at the end.
#[verifier::external_body]
pub fn node_vec_push(v: &mut NodeVec, n: ExprNode)
    ensures
        node_elems(*final(v)) == node_elems(*old(v)).push(n),
{
    v.inner.push(n)
}

/// Relies on smallvec::SmallVec::pop: removes and returns the last item,
/// or returns `None` when the vector is empty.
#[verifier::external_body]
pub fn node_vec_pop(v: &mut NodeVec) -> (r: Option<ExprNode>)
    ensures
        node_elems(*old(v)).len() == 0 ==> r is None && node_elems(*final(v)) == node_elems(
            *old(v),
        ),
        node_elems(*old(v)).len() > 0 ==> r == Some(node_elems(*old(v)).last()) && node_elems(
            *final(v),
        ) == node_elems(*old(v)).drop_last(),
{
    v.inner.pop()
}

/// Relies on smallvec::SmallVec::len: the number of elements held.
#[verifier::external_body]
pub fn node_vec_len(v: &NodeVec) -> (r: usize)
    ensures
        r == node_elems(*v).len(),
{
    v.inner.len()
}

/// Relies on the slice indexing that smallvec::SmallVec exposes through
/// `Deref`: returns the element at the index.
#[verifier::external_body]
pub fn node_vec_get<'a>(v: &'a NodeVec, i: usize) -> (r: &'a ExprNode)
    requires
        i < node_elems(*v).len(),
    ensures
        *r == node_elems(*v)[i as int],
{
    &v.inner[i]
}

/// Relies on smallvec::SmallVec::new: constructs an empty vector.
#[verifier::external_body]
pub fn op_vec_new() -> (r: OpVec)
    ensures
        op_elems(r) == Seq::<OpAndSpan>::empty(),
{
    OpVec { inner: smallvec::SmallVec::new() }
}

/// Relies on smallvec::SmallVec::push: appends the item at the end.
#[verifier::external_body]
pub fn op_vec_push(v: &mut OpVec, op: OpAndSpan)
    ensures
        op_elems(*final(v)) == op_elems(*old(v)).push(op),
{
    v.inner.push(op)
}

/// Relies on smallvec::SmallVec::pop: removes and returns the last item,
/// or returns `None` when the vector is empty.
#[verifier::external_body]
pub fn op_vec_pop(v: &mut OpVec) -> (r: Option<OpAndSpan>)
    ensures
        op_elems(*old(v)).len() == 0 ==> r is None && op_elems(*final(v)) == op_elems(*old(v)),
        op_elems(*old(v)).len() > 0 ==> r == Some(op_elems(*old(v)).last()) && op_elems(*final(v))
            == op_elems(*old(v)).drop_last(),
{
    v.inner.pop()
}

/// Relies on the `slice::last` that smallvec::SmallVec exposes through
/// `Deref`: returns the last element without removing it.
#[verifier::external_body]
pub fn op_vec_last(v: &OpVec) -> (r: Option<OpAndSpan>)
    ensures
        op_elems(*v).len() == 0 ==> r is None,
        op_elems(*v).len() > 0 ==> r == Some(op_elems(*v).last()),
{
    v.inner.last().copied()
}

/// Relies on smallvec::SmallVec::new: constructs an empty vector.
#[verifier::external_body]
pub fn bool_vec_new() -> (r: BoolVec)
    ensures
        bool_elems(r) == Seq::<bool>::empty(),
{
    BoolVec { inner: smallvec::SmallVec::new() }
}

/// Relies on smallvec::SmallVec::push: appends the item at the end.
#[verifier::external_body]
pub fn bool_vec_push(v: &mut BoolVec, b: bool)
    ensures
        bool_elems(*final(v)) == bool_elems(*old(v)).push(b),
{
    v.inner.push(b)
}

/// Relies on smallvec::SmallVec::pop: removes and returns the last item,
/// or returns `None` when the vector is empty.
#[verifier::external_body]
pub fn bool_vec_pop(v: &mut BoolVec) -> (r: Option<bool>)
    ensures
        bool_elems(*old(v)).len() == 0 ==> r is None && bool_elems(*final(v)) == bool_elems(
            *old(v),
        ),
        bool_elems(*old(v)).len() > 0 ==> r == Some(bool_elems(*old(v)).last()) && bool_elems(
            *final(v),
        ) == bool_elems(*old(v)).drop_last(),
{
    v.inner.pop()
}

} // verus!
