//! Laws that relate the public operations to each other.

use crate::error::ParseErrorView;
use crate::expression::{
    answers_ok, apply_op, exprs_equiv, lemma_stack_after_len, node_equiv, num_reqs, pops_safe,
    req_spans, reqs_of, spans_in_order, spec_eval, stack_after, step_stack, views_of, ExprNode,
    Expression, NodeView,
};
use crate::parser::spec_parse;
use crate::LicenseReq;
use vstd::prelude::*;

verus! {

/// Every value on the evaluation stack equals `v` when every answer the
/// predicate can give is `v`.
proof fn lemma_stack_entries_const<F: Fn(&LicenseReq) -> bool>(
    f: F,
    ns: Seq<ExprNode>,
    ans: Seq<bool>,
    v: bool,
    i: int,
)
    requires
        0 <= i <= ns.len(),
        pops_safe(views_of(ns)),
        answers_ok(f, ns, ans),
        forall|q: &LicenseReq, b: bool| call_ensures(f, (q,), b) ==> b == v,
    ensures
        forall|m: int|
            0 <= m < stack_after(views_of(ns), ans, i).len() ==> stack_after(views_of(ns), ans, i)[m]
                == v,
    decreases i,
{
    reveal(crate::expression::answers_ok);
    if i > 0 {
        lemma_stack_entries_const(f, ns, ans, v, i - 1);
        let vs = views_of(ns);
        let prev = stack_after(vs, ans, i - 1);
        let idx = num_reqs(vs.take(i - 1));
        assert(stack_after(vs, ans, i) == step_stack(prev, vs[i - 1], ans[idx]));
        match ns[i - 1] {
            ExprNode::Req(_) => {
                assert(ns[i - 1] matches ExprNode::Req(er) ==> call_ensures(f, (&er.req,), ans[idx]));
                assert(ans[idx] == v);
            },
            ExprNode::Op(_) => {
                assert(vs[i - 1] matches NodeView::Op(_));
                if prev.len() >= 2 {
                    assert(apply_op(
                        match vs[i - 1] {
                            NodeView::Op(op) => op,
                            NodeView::Req(_) => arbitrary(),
                        },
                        v,
                        v,
                    ) == v);
                }
            },
        }
    }
}

/// A predicate that can only ever answer `v` makes the whole evaluation
/// come out `v`, for every well-formed expression: with an always-true
/// predicate evaluation is true, with an always-false predicate it is false.
///
/// The expression's answer vector and result are the ones
/// [`Expression::evaluate`]'s contract exhibits for the call.
pub proof fn lemma_evaluate_const_predicate<F: Fn(&LicenseReq) -> bool>(
    f: F,
    e: &Expression,
    ans: Seq<bool>,
    r: bool,
    v: bool,
)
    requires
        e.wf(),
        forall|q: &LicenseReq, b: bool| call_ensures(f, (q,), b) ==> b == v,
        ans.len() == num_reqs(e@),
        answers_ok(f, e.nodes(), ans),
        r == spec_eval(e@, ans),
    ensures
        r == v,
{
    let len = e@.len() as int;
    assert(views_of(e.nodes()) == e@);
    lemma_stack_entries_const(f, e.nodes(), ans, v, len);
    lemma_stack_after_len(e@, ans, len);
    assert(e@.take(len) =~= e@);
    assert(stack_after(e@, ans, len).len() == 1);
    assert(stack_after(views_of(e.nodes()), ans, len)[0] == v);
    assert(spec_eval(e@, ans) == stack_after(e@, ans, len)[0]);
}

/// The requirements of an expression whose spans are in source order — as
/// `parse` guarantees for everything it returns — come left to right: each
/// one ends in the text no later than the next begins, and all lie inside
/// the text. `Expression::requirements` returns exactly these, operators
/// excluded, so the listing is in source order.
pub proof fn lemma_requirements_in_source_order(e: &Expression, limit: int)
    requires
        spans_in_order(req_spans(e@), limit),
    ensures
        forall|a: int, b: int|
            0 <= a < b < reqs_of(e@).len() ==> (#[trigger] reqs_of(e@)[a]).span.end <= (
            #[trigger] reqs_of(e@)[b]).span.start,
        forall|a: int|
            0 <= a < reqs_of(e@).len() ==> (#[trigger] reqs_of(e@)[a]).span.start <= reqs_of(
                e@,
            )[a].span.end && reqs_of(e@)[a].span.end <= limit,
{
    assert(forall|a: int|
        0 <= a < reqs_of(e@).len() ==> req_spans(e@)[a] == (#[trigger] reqs_of(e@)[a]).span);
}

/// Parsing is idempotent: any two successful parses of one text return
/// expressions with the same node sequence, which therefore compare equal.
/// `parse`'s contract pins each result to `spec_parse` of the text, a
/// function of the characters alone.
pub proof fn lemma_parse_idempotent(e1: &Expression, e2: &Expression, s: Seq<char>)
    requires
        spec_parse(s) == Ok::<Seq<NodeView>, ParseErrorView>(e1@),
        spec_parse(s) == Ok::<Seq<NodeView>, ParseErrorView>(e2@),
    ensures
        e1@ == e2@,
        exprs_equiv(e1@, e2@),
{
    assert forall|i: int| 0 <= i < e1@.len() implies node_equiv(#[trigger] e1@[i], e2@[i]) by {
        assert(e1@[i] == e2@[i]);
        match e1@[i] {
            NodeView::Op(_) => {},
            NodeView::Req(_) => {},
        }
    }
}

} // verus!
