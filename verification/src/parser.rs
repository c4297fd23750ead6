//! The shunting-yard parser that turns the token stream into a postfix node
//! sequence.
//!
//! The parser enforces an adjacency grammar keyed on the last accepted token
//! category, handles `AND`/`OR` precedence and parentheses with an explicit
//! operator stack, and attaches `+` and `WITH <exception>` to the requirement
//! node appended most recently. It is the only constructor of
//! [`Expression`], and it is what establishes the well-formed-postfix
//! invariant the evaluators rely on.

use crate::error::{ParseError, ParseErrorView, Reason, ReasonView};
use crate::expression::{
    balance, lemma_req_spans_push, pops_safe, req_spans, spans_in_order, views_of, wf_nodes,
    ExprNode, Expression, ExpressionReq, ExpressionReqView, NodeView, Operator,
};
use crate::lexer::{
    mk_span, spec_lex, tokenize, toks_view, TokSpanView, TokView, Token, TokenSpan,
};
use crate::smallvec_specs::{
    node_elems, node_vec_new, node_vec_pop, node_vec_push, op_elems, op_vec_last, op_vec_new,
    op_vec_pop, op_vec_push, NodeVec, OpVec,
};
use crate::{
    opt_str_view, LicenseItem, LicenseItemView, LicenseReq, LicenseReqView, Span,
};
use vstd::prelude::*;

verus! {

/// An operator-stack entry: a joining operator or an open-parenthesis
/// marker, with the span it came from.
#[derive(Debug, Clone, Copy, PartialEq, Eq, Structural)]
pub struct OpAndSpan {
    pub op: StackOp,
    pub span: Span,
}

/// What the operator stack holds.
#[derive(Debug, Clone, Copy, PartialEq, Eq, Structural)]
pub enum StackOp {
    And,
    Or,
    Open,
}

/// The category of the last accepted token: the state of the adjacency
/// grammar.
#[derive(Debug, Clone, Copy, PartialEq, Eq, Structural)]
pub enum LastTok {
    Start,
    Spdx,
    Ref,
    Plus,
    With,
    Exc,
    And,
    Or,
    Open,
    Close,
}

/// The number of joining operators (not open-parenthesis markers) on the
/// operator stack.
pub open spec fn bins(ops: Seq<OpAndSpan>) -> int
    decreases ops.len(),
{
    if ops.len() == 0 {
        0
    } else {
        bins(ops.drop_last()) + match ops.last().op {
            StackOp::Open => 0int,
            _ => 1int,
        }
    }
}

pub proof fn lemma_bins_nonneg(ops: Seq<OpAndSpan>)
    ensures
        bins(ops) >= 0,
    decreases ops.len(),
{
    if ops.len() > 0 {
        lemma_bins_nonneg(ops.drop_last());
    }
}

/// After the last accepted token, the output queue holds one more complete
/// operand than the joining operators on the stack still need.
pub open spec fn has_atom(last: LastTok) -> bool {
    match last {
        LastTok::Spdx | LastTok::Ref | LastTok::Plus | LastTok::With | LastTok::Exc
            | LastTok::Close => true,
        _ => false,
    }
}

/// Pushing a node onto the queue moves the balance by its kind, and keeps
/// every operator's two operands available when the pushed node is an
/// operator with two values on the stack.
pub proof fn lemma_push_node(q: Seq<NodeView>, n: NodeView)
    ensures
        balance(q.push(n)) == balance(q) + (if n matches NodeView::Req(_) {
            1int
        } else {
            -1int
        }),
        (pops_safe(q) && (n matches NodeView::Op(_) ==> balance(q) >= 2)) ==> pops_safe(q.push(n)),
{
    assert(q.push(n).drop_last() =~= q);
    assert(q.push(n).last() == n);
    if pops_safe(q) && (n matches NodeView::Op(_) ==> balance(q) >= 2) {
        assert forall|i: int|
            (0 <= i < q.push(n).len() && (#[trigger] q.push(n)[i]) matches NodeView::Op(_))
                implies balance(q.push(n).take(i)) >= 2 by {
            if i < q.len() {
                assert(q.push(n).take(i) =~= q.take(i));
                assert(q.push(n)[i] == q[i]);
            } else {
                assert(q.push(n).take(i) =~= q);
            }
        }
    }
}

/// Replacing the last node, a requirement, by another requirement keeps the
/// balance and the operand availability of every operator.
pub proof fn lemma_replace_last_req(q: Seq<NodeView>, r2: ExpressionReqView)
    requires
        q.len() > 0,
        q.last() matches NodeView::Req(_),
    ensures
        balance(q.drop_last().push(NodeView::Req(r2))) == balance(q),
        pops_safe(q) ==> pops_safe(q.drop_last().push(NodeView::Req(r2))),
{
    let q2 = q.drop_last().push(NodeView::Req(r2));
    assert(q2.drop_last() =~= q.drop_last());
    assert(q2.last() == NodeView::Req(r2));
    if pops_safe(q) {
        assert forall|i: int|
            (0 <= i < q2.len() && (#[trigger] q2[i]) matches NodeView::Op(_)) implies balance(
            q2.take(i),
        ) >= 2 by {
            assert(q2[i] == q[i]);
            assert(q2.take(i) =~= q.take(i));
        }
    }
}

pub proof fn lemma_views_push(ns: Seq<ExprNode>, n: ExprNode)
    ensures
        views_of(ns.push(n)) == views_of(ns).push(n@),
{
    assert(views_of(ns.push(n)) =~= views_of(ns).push(n@));
}

pub proof fn lemma_views_drop_last(ns: Seq<ExprNode>)
    requires
        ns.len() > 0,
    ensures
        views_of(ns.drop_last()) == views_of(ns).drop_last(),
        views_of(ns).len() > 0,
        views_of(ns).last() == ns.last()@,
{
    assert(views_of(ns.drop_last()) =~= views_of(ns).drop_last());
}

/// The parser's state: the output queue, the operator stack, and the last
/// accepted token category.
pub ghost struct ParseSt {
    pub q: Seq<NodeView>,
    pub ops: Seq<OpAndSpan>,
    pub last: LastTok,
}

/// The state before any token.
pub open spec fn init_st() -> ParseSt {
    ParseSt { q: Seq::empty(), ops: Seq::empty(), last: LastTok::Start }
}

/// The output-queue node for a joining operator on the stack.
pub open spec fn op_node(op: StackOp) -> NodeView {
    match op {
        StackOp::And => NodeView::Op(Operator::And),
        _ => NodeView::Op(Operator::Or),
    }
}

/// Whether the stack top is a joining operator whose precedence is at
/// least the new operator's (`AND` binds tighter than `OR`).
pub open spec fn spec_should_pop(ops: Seq<OpAndSpan>, new_op: StackOp) -> bool {
    ops.len() > 0 && match (ops.last().op, new_op) {
        (StackOp::Open, _) => false,
        (StackOp::And, _) => true,
        (StackOp::Or, StackOp::Or) => true,
        (StackOp::Or, _) => false,
    }
}

/// Pops operators of precedence at least `new_op`'s into the queue.
pub open spec fn spec_pop_ge(q: Seq<NodeView>, ops: Seq<OpAndSpan>, new_op: StackOp) -> (
    Seq<NodeView>,
    Seq<OpAndSpan>,
)
    decreases ops.len(),
{
    if spec_should_pop(ops, new_op) {
        spec_pop_ge(q.push(op_node(ops.last().op)), ops.drop_last(), new_op)
    } else {
        (q, ops)
    }
}

/// Pops operators into the queue until an open-parenthesis marker, which is
/// discarded; fails when no marker is left.
pub open spec fn spec_close(q: Seq<NodeView>, ops: Seq<OpAndSpan>) -> Result<
    (Seq<NodeView>, Seq<OpAndSpan>),
    (),
>
    decreases ops.len(),
{
    if ops.len() == 0 {
        Err(())
    } else if (ops.last().op matches StackOp::Open) {
        let r = (q, ops.drop_last());
        Ok(r)
    } else {
        spec_close(q.push(op_node(ops.last().op)), ops.drop_last())
    }
}

/// Pops the remaining operators into the queue at the end of the stream;
/// a leftover open-parenthesis marker fails with its span.
pub open spec fn spec_drain(q: Seq<NodeView>, ops: Seq<OpAndSpan>) -> Result<Seq<NodeView>, Span>
    decreases ops.len(),
{
    if ops.len() == 0 {
        Ok(q)
    } else if (ops.last().op matches StackOp::Open) {
        Err(ops.last().span)
    } else {
        spec_drain(q.push(op_node(ops.last().op)), ops.drop_last())
    }
}

/// Rewrites the most recently appended requirement node: sets the or-later
/// flag (for `+`) or attaches the exception (for `WITH <exception>`).
/// Identity on a queue whose last node is not a requirement, which the
/// grammar never lets happen.
pub open spec fn spec_set_last(
    q: Seq<NodeView>,
    or_later: bool,
    exception: Option<Seq<char>>,
) -> Seq<NodeView> {
    if q.len() == 0 {
        q
    } else {
        match q.last() {
            NodeView::Op(_) => q,
            NodeView::Req(r) => q.drop_last().push(
                NodeView::Req(
                    ExpressionReqView {
                        req: LicenseReqView {
                            license: match r.req.license {
                                LicenseItemView::Spdx { id, or_later: was } => LicenseItemView::Spdx {
                                    id,
                                    or_later: if or_later {
                                        true
                                    } else {
                                        was
                                    },
                                },
                                other => other,
                            },
                            exception: match exception {
                                Some(e) => Some(e),
                                None => r.req.exception,
                            },
                        },
                        span: r.span,
                    },
                ),
            ),
        }
    }
}

/// The token descriptions the grammar accepts after the given category.
pub open spec fn expected_view(last: LastTok) -> Seq<Seq<char>> {
    match last {
        LastTok::Start | LastTok::And | LastTok::Or | LastTok::Open => seq!["<license>"@, "("@],
        LastTok::Close => seq!["AND"@, "OR"@],
        LastTok::Exc => seq!["AND"@, "OR"@, ")"@],
        LastTok::Spdx => seq!["AND"@, "OR"@, "WITH"@, ")"@, "+"@],
        LastTok::Ref | LastTok::Plus => seq!["AND"@, "OR"@, "WITH"@, ")"@],
        LastTok::With => seq!["<exception>"@],
    }
}

/// The unexpected-token error after the given category.
pub open spec fn spec_unexpected(last: LastTok, span: Span) -> ParseErrorView {
    ParseErrorView { span, reason: ReasonView::Unexpected(expected_view(last)) }
}

/// One step of the parser: how one token moves the state, or which error
/// it raises.
pub open spec fn spec_step(st: ParseSt, t: TokSpanView) -> Result<ParseSt, ParseErrorView> {
    match t.tok {
        TokView::Spdx { id } => match st.last {
            LastTok::Start | LastTok::And | LastTok::Or | LastTok::Open => Ok(
                ParseSt {
                    q: st.q.push(
                        NodeView::Req(
                            ExpressionReqView {
                                req: LicenseReqView {
                                    license: LicenseItemView::Spdx { id, or_later: false },
                                    exception: None,
                                },
                                span: t.span,
                            },
                        ),
                    ),
                    ops: st.ops,
                    last: LastTok::Spdx,
                },
            ),
            _ => Err(spec_unexpected(st.last, t.span)),
        },
        TokView::Ref { doc, lic } => match st.last {
            LastTok::Start | LastTok::And | LastTok::Or | LastTok::Open => Ok(
                ParseSt {
                    q: st.q.push(
                        NodeView::Req(
                            ExpressionReqView {
                                req: LicenseReqView {
                                    license: LicenseItemView::Other { doc_ref: doc, lic_ref: lic },
                                    exception: None,
                                },
                                span: t.span,
                            },
                        ),
                    ),
                    ops: st.ops,
                    last: LastTok::Ref,
                },
            ),
            _ => Err(spec_unexpected(st.last, t.span)),
        },
        TokView::Plus => match st.last {
            LastTok::Spdx => Ok(
                ParseSt { q: spec_set_last(st.q, true, None), ops: st.ops, last: LastTok::Plus },
            ),
            _ => Err(spec_unexpected(st.last, t.span)),
        },
        TokView::With => match st.last {
            LastTok::Spdx | LastTok::Ref | LastTok::Plus => Ok(
                ParseSt { q: st.q, ops: st.ops, last: LastTok::With },
            ),
            _ => Err(spec_unexpected(st.last, t.span)),
        },
        TokView::Exc { id } => match st.last {
            LastTok::With => Ok(
                ParseSt {
                    q: spec_set_last(st.q, false, Some(id)),
                    ops: st.ops,
                    last: LastTok::Exc,
                },
            ),
            _ => Err(spec_unexpected(st.last, t.span)),
        },
        TokView::And | TokView::Or => match st.last {
            LastTok::Spdx | LastTok::Ref | LastTok::Close | LastTok::Exc | LastTok::Plus => {
                let new_op = if (t.tok matches TokView::And) {
                    StackOp::And
                } else {
                    StackOp::Or
                };
                let (q2, ops2) = spec_pop_ge(st.q, st.ops, new_op);
                Ok(
                    ParseSt {
                        q: q2,
                        ops: ops2.push(OpAndSpan { op: new_op, span: t.span }),
                        last: if (new_op matches StackOp::And) {
                            LastTok::And
                        } else {
                            LastTok::Or
                        },
                    },
                )
            },
            _ => Err(spec_unexpected(st.last, t.span)),
        },
        TokView::Open => match st.last {
            LastTok::Start | LastTok::And | LastTok::Or | LastTok::Open => Ok(
                ParseSt {
                    q: st.q,
                    ops: st.ops.push(OpAndSpan { op: StackOp::Open, span: t.span }),
                    last: LastTok::Open,
                },
            ),
            _ => Err(spec_unexpected(st.last, t.span)),
        },
        TokView::Close => match st.last {
            LastTok::Spdx | LastTok::Ref | LastTok::Plus | LastTok::Exc | LastTok::Close => match
                spec_close(st.q, st.ops) {
                Ok(r2) => Ok(ParseSt { q: r2.0, ops: r2.1, last: LastTok::Close }),
                Err(_) => Err(
                    ParseErrorView { span: t.span, reason: ReasonView::UnopenedParens },
                ),
            },
            _ => Err(spec_unexpected(st.last, t.span)),
        },
    }
}

/// What the end of the stream yields from a state: the finished queue, or
/// the error for a stream that cannot end there.
pub open spec fn spec_finish(st: ParseSt, text_len: int) -> Result<Seq<NodeView>, ParseErrorView> {
    match st.last {
        LastTok::Spdx | LastTok::Ref | LastTok::Exc | LastTok::Close | LastTok::Plus => match
            spec_drain(st.q, st.ops) {
            Ok(q) => Ok(q),
            Err(span) => Err(ParseErrorView { span, reason: ReasonView::UnclosedParens }),
        },
        LastTok::Start => Err(
            ParseErrorView { span: mk_span(0, text_len), reason: ReasonView::Empty },
        ),
        _ => Err(spec_unexpected(st.last, mk_span(text_len, text_len))),
    }
}

/// Runs the parser over the tokens from position `k` on.
pub open spec fn spec_parse_toks(
    toks: Seq<TokSpanView>,
    k: int,
    st: ParseSt,
    text_len: int,
) -> Result<Seq<NodeView>, ParseErrorView>
    decreases toks.len() - k
        when 0 <= k <= toks.len()
{
    if k >= toks.len() {
        spec_finish(st, text_len)
    } else {
        match spec_step(st, toks[k]) {
            Ok(st2) => spec_parse_toks(toks, k + 1, st2, text_len),
            Err(e) => Err(e),
        }
    }
}

/// What parsing the text yields: the lexical error, the parse error, or
/// the postfix node sequence — the grammar, as one function of the text.
pub open spec fn spec_parse(s: Seq<char>) -> Result<Seq<NodeView>, ParseErrorView> {
    match spec_lex(s, 0, Seq::empty()) {
        Ok(toks) => spec_parse_toks(toks, 0, init_st(), s.len() as int),
        Err(e) => Err(e),
    }
}

/// If every requirement span so far ends before token `k` starts, it also
/// ends before token `k + 1` starts.
proof fn lemma_link_next(spans: Seq<Span>, toks: Seq<TokenSpan>, k: int)
    requires
        0 <= k < toks.len(),
        forall|a: int| 0 <= a < spans.len() ==> (#[trigger] spans[a]).end <= toks[k].span.start,
        forall|i: int|
            0 <= i < toks.len() ==> (#[trigger] toks[i].span).start <= toks[i].span.end,
        forall|a: int, b: int|
            0 <= a < b < toks.len() ==> (#[trigger] toks[a].span).end <= (
            #[trigger] toks[b].span).start,
    ensures
        k + 1 < toks.len() ==> forall|a: int|
            0 <= a < spans.len() ==> (#[trigger] spans[a]).end <= toks[k + 1].span.start,
{
    if k + 1 < toks.len() {
        assert(toks[k].span.start <= toks[k].span.end);
        assert(toks[k].span.end <= toks[k + 1].span.start);
    }
}

/// Appending the span of token `k` keeps the requirement spans in source
/// order, inside the text, and before token `k + 1`.
proof fn lemma_order_push(spans: Seq<Span>, toks: Seq<TokenSpan>, k: int, limit: int)
    requires
        0 <= k < toks.len(),
        spans_in_order(spans, limit),
        forall|a: int| 0 <= a < spans.len() ==> (#[trigger] spans[a]).end <= toks[k].span.start,
        forall|i: int|
            0 <= i < toks.len() ==> (#[trigger] toks[i].span).start <= toks[i].span.end
                && toks[i].span.end <= limit,
        forall|a: int, b: int|
            0 <= a < b < toks.len() ==> (#[trigger] toks[a].span).end <= (
            #[trigger] toks[b].span).start,
    ensures
        spans_in_order(spans.push(toks[k].span), limit),
        k + 1 < toks.len() ==> forall|a: int|
            0 <= a < spans.push(toks[k].span).len() ==> (#[trigger] spans.push(
                toks[k].span,
            )[a]).end <= toks[k + 1].span.start,
{
    let s2 = spans.push(toks[k].span);
    assert forall|a: int| 0 <= a < s2.len() implies (#[trigger] s2[a]).start <= s2[a].end
        && s2[a].end <= limit by {
        if a < spans.len() {
            assert(s2[a] == spans[a]);
        } else {
            assert(s2[a] == toks[k].span);
        }
    }
    assert forall|a: int, b: int| 0 <= a < b < s2.len() implies (#[trigger] s2[a]).end <= (
    #[trigger] s2[b]).start by {
        if b < spans.len() {
            assert(s2[a] == spans[a] && s2[b] == spans[b]);
        } else {
            assert(s2[b] == toks[k].span);
            assert(s2[a] == spans[a]);
            assert(spans[a].end <= toks[k].span.start);
        }
    }
    if k + 1 < toks.len() {
        assert forall|a: int| 0 <= a < s2.len() implies (#[trigger] s2[a]).end <= toks[k
            + 1].span.start by {
            assert(toks[k].span.end <= toks[k + 1].span.start);
            if a < spans.len() {
                assert(spans[a].end <= toks[k].span.start <= toks[k].span.end);
            } else {
                assert(s2[a] == toks[k].span);
            }
        }
    }
}

/// Appends a requirement node to the output queue.
fn push_req(q: &mut NodeVec, req: ExpressionReq)
    requires
        pops_safe(views_of(node_elems(*old(q)))),
    ensures
        pops_safe(views_of(node_elems(*final(q)))),
        balance(views_of(node_elems(*final(q)))) == balance(views_of(node_elems(*old(q)))) + 1,
        req_spans(views_of(node_elems(*final(q)))) == req_spans(
            views_of(node_elems(*old(q))),
        ).push(req.span),
        views_of(node_elems(*final(q))) == views_of(node_elems(*old(q))).push(
            NodeView::Req(req@),
        ),
{
    let ghost qe = node_elems(*q);
    let node = ExprNode::Req(req);
    node_vec_push(q, node);
    proof {
        lemma_views_push(qe, node);
        lemma_push_node(views_of(qe), node@);
        lemma_req_spans_push(views_of(qe), node@);
    }
}

/// Pops the top of the operator stack, a joining operator, into the output
/// queue.
fn emit_op(q: &mut NodeVec, op: Operator)
    requires
        pops_safe(views_of(node_elems(*old(q)))),
        balance(views_of(node_elems(*old(q)))) >= 2,
    ensures
        pops_safe(views_of(node_elems(*final(q)))),
        balance(views_of(node_elems(*final(q)))) == balance(views_of(node_elems(*old(q)))) - 1,
        req_spans(views_of(node_elems(*final(q)))) == req_spans(views_of(node_elems(*old(q)))),
        views_of(node_elems(*final(q))) == views_of(node_elems(*old(q))).push(NodeView::Op(op)),
{
    let ghost qe = node_elems(*q);
    let node = ExprNode::Op(op);
    node_vec_push(q, node);
    proof {
        lemma_views_push(qe, node);
        lemma_push_node(views_of(qe), node@);
        lemma_req_spans_push(views_of(qe), node@);
    }
}

/// Rewrites the most recently appended requirement node. The caller's
/// adjacency grammar guarantees the last node is a requirement; the balance
/// and operand availability are kept in any case.
fn modify_last(q: &mut NodeVec, or_later: bool, exception: Option<String>)
    requires
        pops_safe(views_of(node_elems(*old(q)))),
    ensures
        pops_safe(views_of(node_elems(*final(q)))),
        balance(views_of(node_elems(*final(q)))) == balance(views_of(node_elems(*old(q)))),
        req_spans(views_of(node_elems(*final(q)))) == req_spans(views_of(node_elems(*old(q)))),
        views_of(node_elems(*final(q))) == spec_set_last(
            views_of(node_elems(*old(q))),
            or_later,
            opt_str_view(exception),
        ),
{
    let ghost qe = node_elems(*q);
    match node_vec_pop(q) {
        None => {},
        Some(n) => {
            let n2 = match n {
                ExprNode::Req(er) => {
                    let license = match er.req.license {
                        LicenseItem::Spdx { id, or_later: was } => LicenseItem::Spdx {
                            id,
                            or_later: if or_later {
                                true
                            } else {
                                was
                            },
                        },
                        other => other,
                    };
                    let exc = match exception {
                        Some(e) => Some(e),
                        None => er.req.exception,
                    };
                    ExprNode::Req(
                        ExpressionReq { req: LicenseReq { license, exception: exc }, span: er.span },
                    )
                },
                other => other,
            };
            let ghost is_req = n2@ matches NodeView::Req(_);
            let ghost n2v = n2@;
            node_vec_push(q, n2);
            proof {
                lemma_views_drop_last(qe);
                lemma_views_push(qe.drop_last(), n2);
                if is_req && qe.last()@ matches NodeView::Req(_) {
                    let r2 = match n2v {
                        NodeView::Req(r) => r,
                        NodeView::Op(_) => arbitrary(),
                    };
                    lemma_replace_last_req(views_of(qe), r2);
                    let r1 = match qe.last()@ {
                        NodeView::Req(r) => r,
                        NodeView::Op(_) => arbitrary(),
                    };
                    assert(r2.span == r1.span);
                    assert(views_of(qe).drop_last().push(NodeView::Req(r1)) =~= views_of(qe));
                    lemma_req_spans_push(views_of(qe).drop_last(), NodeView::Req(r1));
                    lemma_req_spans_push(views_of(qe).drop_last(), NodeView::Req(r2));
                } else {
                    assert(n2v == qe.last()@);
                    assert(views_of(qe).drop_last().push(n2v) =~= views_of(qe));
                }
            }
        },
    }
}

/// Whether the top of the operator stack is a joining operator whose
/// precedence is at least the new operator's (`AND` binds tighter than
/// `OR`).
fn should_pop(v: &OpVec, new_op: StackOp) -> (r: bool)
    ensures
        r == spec_should_pop(op_elems(*v), new_op),
        r ==> op_elems(*v).len() > 0 && !(op_elems(*v).last().op matches StackOp::Open),
{
    match op_vec_last(v) {
        None => false,
        Some(top) => match (top.op, new_op) {
            (StackOp::Open, _) => false,
            (StackOp::And, _) => true,
            (StackOp::Or, StackOp::Or) => true,
            (StackOp::Or, _) => false,
        },
    }
}

/// The token descriptions the grammar would have accepted after the given
/// category.
fn expected_for(last: LastTok) -> (r: Vec<String>)
    ensures
        r@.map_values(|x: String| x@) == expected_view(last),
{
    match last {
        LastTok::Start | LastTok::And | LastTok::Or | LastTok::Open => vec![
            String::from_str("<license>"),
            String::from_str("("),
        ],
        LastTok::Close => vec![String::from_str("AND"), String::from_str("OR")],
        LastTok::Exc => vec![
            String::from_str("AND"),
            String::from_str("OR"),
            String::from_str(")"),
        ],
        LastTok::Spdx => vec![
            String::from_str("AND"),
            String::from_str("OR"),
            String::from_str("WITH"),
            String::from_str(")"),
            String::from_str("+"),
        ],
        LastTok::Ref | LastTok::Plus => vec![
            String::from_str("AND"),
            String::from_str("OR"),
            String::from_str("WITH"),
            String::from_str(")"),
        ],
        LastTok::With => vec![String::from_str("<exception>")],
    }
}

/// An unexpected-token error: the span of the offending token plus the
/// alternatives that were legal after the last accepted token.
fn unexpected(original: &str, last: LastTok, span: Span) -> (r: ParseError)
    ensures
        r.original@ == original@,
        r@ == spec_unexpected(last, span),
{
    ParseError { original: original.to_owned(), span, reason: Reason::Unexpected(expected_for(last)) }
}

impl Expression {
    /// Parses and validates the text as a license expression.
    ///
    /// Parsing is all-or-nothing, and the result is exactly what
    /// [`spec_parse`] assigns to the text: on success the well-formed
    /// postfix node sequence of the grammar, with the original text kept
    /// verbatim; on failure exactly the grammar's error, carrying the
    /// original text, the offending span inside it, and the reason.
    #[verifier::rlimit(100)]
    pub fn parse(original: &str) -> (r: Result<Expression, ParseError>)
        requires
            original@.len() <= u32::MAX,
        ensures
            (r matches Ok(e) ==> spec_parse(original@) == Ok::<Seq<NodeView>, ParseErrorView>(e@)
                && e.wf() && e.text() == original@ && crate::expression::num_reqs(e@) >= 1
                && spans_in_order(req_spans(e@), original@.len() as int)),
            (r matches Err(pe) ==> spec_parse(original@) == Err::<Seq<NodeView>, ParseErrorView>(
                pe@,
            ) && pe.original@ == original@ && pe@.span.start <= pe@.span.end && pe@.span.end
                <= original@.len()),
    {
        let ghost s = original@;
        let ghost L = original@.len() as int;
        let toks = match tokenize(original) {
            Ok(t) => t,
            Err(e) => {
                return Err(e);
            },
        };
        let ghost tv = toks_view(toks@);
        proof {
            assert(spec_parse(s) == spec_parse_toks(tv, 0, init_st(), L));
        }
        let n = toks.len();
        let mut expr_queue = node_vec_new();
        let mut op_stack = op_vec_new();
        let mut last = LastTok::Start;
        let mut k: usize = 0;
        proof {
            assert(views_of(node_elems(expr_queue)) =~= Seq::<NodeView>::empty());
            assert(ParseSt {
                q: views_of(node_elems(expr_queue)),
                ops: op_elems(op_stack),
                last,
            } == init_st());
        }
        while k < n
            invariant
                s == original@,
                L == original@.len() as int,
                n == toks@.len(),
                tv == toks_view(toks@),
                tv.len() == n,
                k <= n,
                original@.len() <= u32::MAX,
                spec_parse(s) == spec_parse_toks(
                    tv,
                    k as int,
                    ParseSt {
                        q: views_of(node_elems(expr_queue)),
                        ops: op_elems(op_stack),
                        last,
                    },
                    L,
                ),
                pops_safe(views_of(node_elems(expr_queue))),
                balance(views_of(node_elems(expr_queue))) == bins(op_elems(op_stack)) + (
                if has_atom(last) {
                    1int
                } else {
                    0int
                }),
                forall|i: int|
                    0 <= i < toks@.len() ==> (#[trigger] toks@[i].span).start <= toks@[i].span.end
                        && toks@[i].span.end <= original@.len(),
                forall|a: int, b: int|
                    0 <= a < b < toks@.len() ==> (#[trigger] toks@[a].span).end <= (
                    #[trigger] toks@[b].span).start,
                forall|m: int|
                    0 <= m < op_elems(op_stack).len() ==> (#[trigger] op_elems(op_stack)[m]).span.start
                        <= op_elems(op_stack)[m].span.end && op_elems(op_stack)[m].span.end
                        <= original@.len(),
                spans_in_order(
                    req_spans(views_of(node_elems(expr_queue))),
                    original@.len() as int,
                ),
                k < n ==> forall|a: int|
                    0 <= a < req_spans(views_of(node_elems(expr_queue))).len() ==> (
                    #[trigger] req_spans(views_of(node_elems(expr_queue)))[a]).end
                        <= toks@[k as int].span.start,
            decreases n - k,
        {
            let ghost st0 = ParseSt {
                q: views_of(node_elems(expr_queue)),
                ops: op_elems(op_stack),
                last,
            };
            let t = &toks[k];
            proof {
                assert(t@ == tv[k as int]);
            }
            match &t.token {
                Token::Spdx { id } => {
                    match last {
                        LastTok::Start | LastTok::And | LastTok::Or | LastTok::Open => {
                            let ghost spans0 = req_spans(views_of(node_elems(expr_queue)));
                            push_req(
                                &mut expr_queue,
                                ExpressionReq {
                                    req: LicenseReq {
                                        license: LicenseItem::Spdx {
                                            id: id.clone(),
                                            or_later: false,
                                        },
                                        exception: None,
                                    },
                                    span: t.span,
                                },
                            );
                            last = LastTok::Spdx;
                            proof {
                                lemma_order_push(spans0, toks@, k as int, L);
                                let st1 = ParseSt {
                                    q: views_of(node_elems(expr_queue)),
                                    ops: op_elems(op_stack),
                                    last,
                                };
                                assert(spec_step(st0, tv[k as int]) == Ok::<
                                    ParseSt,
                                    ParseErrorView,
                                >(st1));
                                assert(spec_parse_toks(tv, k as int, st0, L) == spec_parse_toks(
                                    tv,
                                    k + 1,
                                    st1,
                                    L,
                                ));
                            }
                        },
                        _ => {
                            let e = unexpected(original, last, t.span);
                            proof {
                                assert(spec_step(st0, tv[k as int]) == Err::<ParseSt, _>(e@));
                                assert(spec_parse_toks(tv, k as int, st0, L) == Err::<
                                    Seq<NodeView>,
                                    _,
                                >(e@));
                            }
                            return Err(e);
                        },
                    }
                },
                Token::LicenseRef { doc_ref, lic_ref } => {
                    match last {
                        LastTok::Start | LastTok::And | LastTok::Or | LastTok::Open => {
                            let doc = match doc_ref {
                                Some(d) => Some(d.clone()),
                                None => None,
                            };
                            let ghost spans0 = req_spans(views_of(node_elems(expr_queue)));
                            push_req(
                                &mut expr_queue,
                                ExpressionReq {
                                    req: LicenseReq {
                                        license: LicenseItem::Other {
                                            doc_ref: doc,
                                            lic_ref: lic_ref.clone(),
                                        },
                                        exception: None,
                                    },
                                    span: t.span,
                                },
                            );
                            last = LastTok::Ref;
                            proof {
                                lemma_order_push(spans0, toks@, k as int, L);
                                let st1 = ParseSt {
                                    q: views_of(node_elems(expr_queue)),
                                    ops: op_elems(op_stack),
                                    last,
                                };
                                assert(spec_step(st0, tv[k as int]) == Ok::<
                                    ParseSt,
                                    ParseErrorView,
                                >(st1));
                                assert(spec_parse_toks(tv, k as int, st0, L) == spec_parse_toks(
                                    tv,
                                    k + 1,
                                    st1,
                                    L,
                                ));
                            }
                        },
                        _ => {
                            let e = unexpected(original, last, t.span);
                            proof {
                                assert(spec_step(st0, tv[k as int]) == Err::<ParseSt, _>(e@));
                                assert(spec_parse_toks(tv, k as int, st0, L) == Err::<
                                    Seq<NodeView>,
                                    _,
                                >(e@));
                            }
                            return Err(e);
                        },
                    }
                },
                Token::Plus => {
                    match last {
                        LastTok::Spdx => {
                            modify_last(&mut expr_queue, true, None);
                            last = LastTok::Plus;
                            proof {
                                lemma_link_next(
                                    req_spans(views_of(node_elems(expr_queue))),
                                    toks@,
                                    k as int,
                                );
                                let st1 = ParseSt {
                                    q: views_of(node_elems(expr_queue)),
                                    ops: op_elems(op_stack),
                                    last,
                                };
                                assert(spec_step(st0, tv[k as int]) == Ok::<
                                    ParseSt,
                                    ParseErrorView,
                                >(st1));
                                assert(spec_parse_toks(tv, k as int, st0, L) == spec_parse_toks(
                                    tv,
                                    k + 1,
                                    st1,
                                    L,
                                ));
                            }
                        },
                        _ => {
                            let e = unexpected(original, last, t.span);
                            proof {
                                assert(spec_step(st0, tv[k as int]) == Err::<ParseSt, _>(e@));
                                assert(spec_parse_toks(tv, k as int, st0, L) == Err::<
                                    Seq<NodeView>,
                                    _,
                                >(e@));
                            }
                            return Err(e);
                        },
                    }
                },
                Token::With => {
                    match last {
                        LastTok::Spdx | LastTok::Ref | LastTok::Plus => {
                            last = LastTok::With;
                            proof {
                                lemma_link_next(
                                    req_spans(views_of(node_elems(expr_queue))),
                                    toks@,
                                    k as int,
                                );
                                let st1 = ParseSt {
                                    q: views_of(node_elems(expr_queue)),
                                    ops: op_elems(op_stack),
                                    last,
                                };
                                assert(spec_step(st0, tv[k as int]) == Ok::<
                                    ParseSt,
                                    ParseErrorView,
                                >(st1));
                                assert(spec_parse_toks(tv, k as int, st0, L) == spec_parse_toks(
                                    tv,
                                    k + 1,
                                    st1,
                                    L,
                                ));
                            }
                        },
                        _ => {
                            let e = unexpected(original, last, t.span);
                            proof {
                                assert(spec_step(st0, tv[k as int]) == Err::<ParseSt, _>(e@));
                                assert(spec_parse_toks(tv, k as int, st0, L) == Err::<
                                    Seq<NodeView>,
                                    _,
                                >(e@));
                            }
                            return Err(e);
                        },
                    }
                },
                Token::Exception { id } => {
                    match last {
                        LastTok::With => {
                            modify_last(&mut expr_queue, false, Some(id.clone()));
                            last = LastTok::Exc;
                            proof {
                                lemma_link_next(
                                    req_spans(views_of(node_elems(expr_queue))),
                                    toks@,
                                    k as int,
                                );
                                let st1 = ParseSt {
                                    q: views_of(node_elems(expr_queue)),
                                    ops: op_elems(op_stack),
                                    last,
                                };
                                assert(spec_step(st0, tv[k as int]) == Ok::<
                                    ParseSt,
                                    ParseErrorView,
                                >(st1));
                                assert(spec_parse_toks(tv, k as int, st0, L) == spec_parse_toks(
                                    tv,
                                    k + 1,
                                    st1,
                                    L,
                                ));
                            }
                        },
                        _ => {
                            let e = unexpected(original, last, t.span);
                            proof {
                                assert(spec_step(st0, tv[k as int]) == Err::<ParseSt, _>(e@));
                                assert(spec_parse_toks(tv, k as int, st0, L) == Err::<
                                    Seq<NodeView>,
                                    _,
                                >(e@));
                            }
                            return Err(e);
                        },
                    }
                },
                Token::And | Token::Or => {
                    match last {
                        LastTok::Spdx | LastTok::Ref | LastTok::Close | LastTok::Exc
                            | LastTok::Plus => {
                            let new_op = match &t.token {
                                Token::And => StackOp::And,
                                _ => StackOp::Or,
                            };
                            let ghost spans0 = req_spans(views_of(node_elems(expr_queue)));
                            while should_pop(&op_stack, new_op)
                                invariant
                                    s == original@,
                                    original@.len() <= u32::MAX,
                                    pops_safe(views_of(node_elems(expr_queue))),
                                    balance(views_of(node_elems(expr_queue))) == bins(
                                        op_elems(op_stack),
                                    ) + 1,
                                    req_spans(views_of(node_elems(expr_queue))) == spans0,
                                    forall|m: int|
                                        0 <= m < op_elems(op_stack).len() ==> (
                                        #[trigger] op_elems(op_stack)[m]).span.start <= op_elems(
                                            op_stack,
                                        )[m].span.end && op_elems(op_stack)[m].span.end
                                            <= original@.len(),
                                    spec_pop_ge(st0.q, st0.ops, new_op) == spec_pop_ge(
                                        views_of(node_elems(expr_queue)),
                                        op_elems(op_stack),
                                        new_op,
                                    ),
                                decreases op_elems(op_stack).len(),
                            {
                                let ghost ops0 = op_elems(op_stack);
                                let ghost q0 = views_of(node_elems(expr_queue));
                                proof {
                                    assert(spec_pop_ge(q0, ops0, new_op) == spec_pop_ge(
                                        q0.push(op_node(ops0.last().op)),
                                        ops0.drop_last(),
                                        new_op,
                                    ));
                                }
                                let top = match op_vec_pop(&mut op_stack) {
                                    Some(x) => x,
                                    None => OpAndSpan {
                                        op: StackOp::Open,
                                        span: Span { start: 0, end: 0 },
                                    },
                                };
                                proof {
                                    lemma_bins_nonneg(ops0.drop_last());
                                    assert(bins(ops0) == bins(ops0.drop_last()) + 1);
                                }
                                match top.op {
                                    StackOp::And => emit_op(&mut expr_queue, Operator::And),
                                    StackOp::Or => emit_op(&mut expr_queue, Operator::Or),
                                    StackOp::Open => {},
                                }
                            }
                            proof {
                                assert(spec_pop_ge(st0.q, st0.ops, new_op).0 == views_of(
                                    node_elems(expr_queue),
                                ));
                                assert(spec_pop_ge(st0.q, st0.ops, new_op).1 == op_elems(op_stack));
                            }
                            let ghost ops1 = op_elems(op_stack);
                            op_vec_push(&mut op_stack, OpAndSpan { op: new_op, span: t.span });
                            last = match new_op {
                                StackOp::And => LastTok::And,
                                _ => LastTok::Or,
                            };
                            proof {
                                assert(op_elems(op_stack).drop_last() =~= ops1);
                                assert(bins(op_elems(op_stack)) == bins(ops1) + 1);
                                lemma_link_next(
                                    req_spans(views_of(node_elems(expr_queue))),
                                    toks@,
                                    k as int,
                                );
                                let st1 = ParseSt {
                                    q: views_of(node_elems(expr_queue)),
                                    ops: op_elems(op_stack),
                                    last,
                                };
                                assert(spec_step(st0, tv[k as int]) == Ok::<
                                    ParseSt,
                                    ParseErrorView,
                                >(st1));
                                assert(spec_parse_toks(tv, k as int, st0, L) == spec_parse_toks(
                                    tv,
                                    k + 1,
                                    st1,
                                    L,
                                ));
                            }
                        },
                        _ => {
                            let e = unexpected(original, last, t.span);
                            proof {
                                assert(spec_step(st0, tv[k as int]) == Err::<ParseSt, _>(e@));
                                assert(spec_parse_toks(tv, k as int, st0, L) == Err::<
                                    Seq<NodeView>,
                                    _,
                                >(e@));
                            }
                            return Err(e);
                        },
                    }
                },
                Token::OpenParen => {
                    match last {
                        LastTok::Start | LastTok::And | LastTok::Or | LastTok::Open => {
                            let ghost ops1 = op_elems(op_stack);
                            op_vec_push(&mut op_stack, OpAndSpan { op: StackOp::Open, span: t.span });
                            last = LastTok::Open;
                            proof {
                                assert(op_elems(op_stack).drop_last() =~= ops1);
                                assert(bins(op_elems(op_stack)) == bins(ops1));
                                lemma_link_next(
                                    req_spans(views_of(node_elems(expr_queue))),
                                    toks@,
                                    k as int,
                                );
                                let st1 = ParseSt {
                                    q: views_of(node_elems(expr_queue)),
                                    ops: op_elems(op_stack),
                                    last,
                                };
                                assert(spec_step(st0, tv[k as int]) == Ok::<
                                    ParseSt,
                                    ParseErrorView,
                                >(st1));
                                assert(spec_parse_toks(tv, k as int, st0, L) == spec_parse_toks(
                                    tv,
                                    k + 1,
                                    st1,
                                    L,
                                ));
                            }
                        },
                        _ => {
                            let e = unexpected(original, last, t.span);
                            proof {
                                assert(spec_step(st0, tv[k as int]) == Err::<ParseSt, _>(e@));
                                assert(spec_parse_toks(tv, k as int, st0, L) == Err::<
                                    Seq<NodeView>,
                                    _,
                                >(e@));
                            }
                            return Err(e);
                        },
                    }
                },
                Token::CloseParen => {
                    match last {
                        LastTok::Spdx | LastTok::Ref | LastTok::Plus | LastTok::Exc
                            | LastTok::Close => {
                            let mut found = false;
                            let ghost spans0 = req_spans(views_of(node_elems(expr_queue)));
                            while !found
                                invariant
                                    s == original@,
                                    L == original@.len() as int,
                                    original@.len() <= u32::MAX,
                                    k < tv.len(),
                                    tv[k as int] == t@,
                                    t@.tok == TokView::Close,
                                    t@.span.start <= t@.span.end && t@.span.end <= original@.len(),
                                    st0.last == LastTok::Spdx || st0.last == LastTok::Ref
                                        || st0.last == LastTok::Plus || st0.last == LastTok::Exc
                                        || st0.last == LastTok::Close,
                                    spec_parse(s) == spec_parse_toks(tv, k as int, st0, L),
                                    pops_safe(views_of(node_elems(expr_queue))),
                                    balance(views_of(node_elems(expr_queue))) == bins(
                                        op_elems(op_stack),
                                    ) + 1,
                                    req_spans(views_of(node_elems(expr_queue))) == spans0,
                                    forall|m: int|
                                        0 <= m < op_elems(op_stack).len() ==> (
                                        #[trigger] op_elems(op_stack)[m]).span.start <= op_elems(
                                            op_stack,
                                        )[m].span.end && op_elems(op_stack)[m].span.end
                                            <= original@.len(),
                                    !found ==> spec_close(st0.q, st0.ops) == spec_close(
                                        views_of(node_elems(expr_queue)),
                                        op_elems(op_stack),
                                    ),
                                    found ==> spec_close(st0.q, st0.ops) == Ok::<
                                        (Seq<NodeView>, Seq<OpAndSpan>),
                                        (),
                                    >((views_of(node_elems(expr_queue)), op_elems(op_stack))),
                                decreases op_elems(op_stack).len() + (if found {
                                    0int
                                } else {
                                    1int
                                }),
                            {
                                let ghost ops0 = op_elems(op_stack);
                                let ghost q0 = views_of(node_elems(expr_queue));
                                match op_vec_pop(&mut op_stack) {
                                    None => {
                                        let e = ParseError {
                                            original: original.to_owned(),
                                            span: t.span,
                                            reason: Reason::UnopenedParens,
                                        };
                                        proof {
                                            assert(spec_close(q0, ops0) == Err::<
                                                (Seq<NodeView>, Seq<OpAndSpan>),
                                                (),
                                            >(()));
                                            assert(spec_step(st0, tv[k as int]) == Err::<
                                                ParseSt,
                                                _,
                                            >(e@));
                                            assert(spec_parse_toks(tv, k as int, st0, L) == Err::<
                                                Seq<NodeView>,
                                                _,
                                            >(e@));
                                        }
                                        return Err(e);
                                    },
                                    Some(top) => {
                                        match top.op {
                                            StackOp::Open => {
                                                proof {
                                                    assert(bins(ops0) == bins(ops0.drop_last()));
                                                    assert(spec_close(q0, ops0) == Ok::<
                                                        (Seq<NodeView>, Seq<OpAndSpan>),
                                                        (),
                                                    >((q0, ops0.drop_last())));
                                                }
                                                found = true;
                                            },
                                            StackOp::And => {
                                                proof {
                                                    lemma_bins_nonneg(ops0.drop_last());
                                                    assert(bins(ops0) == bins(ops0.drop_last())
                                                        + 1);
                                                    assert(spec_close(q0, ops0) == spec_close(
                                                        q0.push(op_node(ops0.last().op)),
                                                        ops0.drop_last(),
                                                    ));
                                                }
                                                emit_op(&mut expr_queue, Operator::And);
                                            },
                                            StackOp::Or => {
                                                proof {
                                                    lemma_bins_nonneg(ops0.drop_last());
                                                    assert(bins(ops0) == bins(ops0.drop_last())
                                                        + 1);
                                                    assert(spec_close(q0, ops0) == spec_close(
                                                        q0.push(op_node(ops0.last().op)),
                                                        ops0.drop_last(),
                                                    ));
                                                }
                                                emit_op(&mut expr_queue, Operator::Or);
                                            },
                                        }
                                    },
                                }
                            }
                            last = LastTok::Close;
                            proof {
                                lemma_link_next(
                                    req_spans(views_of(node_elems(expr_queue))),
                                    toks@,
                                    k as int,
                                );
                                let st1 = ParseSt {
                                    q: views_of(node_elems(expr_queue)),
                                    ops: op_elems(op_stack),
                                    last,
                                };
                                assert(spec_step(st0, tv[k as int]) == Ok::<
                                    ParseSt,
                                    ParseErrorView,
                                >(st1));
                                assert(spec_parse_toks(tv, k as int, st0, L) == spec_parse_toks(
                                    tv,
                                    k + 1,
                                    st1,
                                    L,
                                ));
                            }
                        },
                        _ => {
                            let e = unexpected(original, last, t.span);
                            proof {
                                assert(spec_step(st0, tv[k as int]) == Err::<ParseSt, _>(e@));
                                assert(spec_parse_toks(tv, k as int, st0, L) == Err::<
                                    Seq<NodeView>,
                                    _,
                                >(e@));
                            }
                            return Err(e);
                        },
                    }
                },
            }
            k = k + 1;
        }
        let ghost st_end = ParseSt {
            q: views_of(node_elems(expr_queue)),
            ops: op_elems(op_stack),
            last,
        };
        proof {
            assert(spec_parse_toks(tv, k as int, st_end, L) == spec_finish(st_end, L));
        }
        // The terminating token must be able to end an expression.
        match last {
            LastTok::Spdx | LastTok::Ref | LastTok::Exc | LastTok::Close | LastTok::Plus => {},
            LastTok::Start => {
                let len = original.unicode_len();
                let e = ParseError {
                    original: original.to_owned(),
                    span: Span { start: 0, end: len as u32 },
                    reason: Reason::Empty,
                };
                proof {
                    assert(spec_finish(st_end, L) == Err::<Seq<NodeView>, _>(e@));
                }
                return Err(e);
            },
            _ => {
                let len = original.unicode_len();
                let e = unexpected(original, last, Span { start: len as u32, end: len as u32 });
                proof {
                    assert(spec_finish(st_end, L) == Err::<Seq<NodeView>, _>(e@));
                }
                return Err(e);
            },
        }
        // Drain the remaining operators; a leftover marker is an unclosed `(`.
        proof {
            assert(spec_parse(s) == spec_finish(st_end, L));
        }
        let mut more = true;
        let ghost spans1 = req_spans(views_of(node_elems(expr_queue)));
        while more
            invariant
                s == original@,
                L == original@.len() as int,
                original@.len() <= u32::MAX,
                spec_parse(s) == spec_finish(st_end, L),
                st_end.last == LastTok::Spdx || st_end.last == LastTok::Ref || st_end.last
                    == LastTok::Exc || st_end.last == LastTok::Close || st_end.last
                    == LastTok::Plus,
                pops_safe(views_of(node_elems(expr_queue))),
                more ==> balance(views_of(node_elems(expr_queue))) == bins(op_elems(op_stack)) + 1,
                !more ==> balance(views_of(node_elems(expr_queue))) == 1,
                req_spans(views_of(node_elems(expr_queue))) == spans1,
                spans_in_order(spans1, original@.len() as int),
                forall|m: int|
                    0 <= m < op_elems(op_stack).len() ==> (#[trigger] op_elems(op_stack)[m]).span.start
                        <= op_elems(op_stack)[m].span.end && op_elems(op_stack)[m].span.end
                        <= original@.len(),
                more ==> spec_drain(st_end.q, st_end.ops) == spec_drain(
                    views_of(node_elems(expr_queue)),
                    op_elems(op_stack),
                ),
                !more ==> spec_drain(st_end.q, st_end.ops) == Ok::<Seq<NodeView>, Span>(
                    views_of(node_elems(expr_queue)),
                ),
            decreases op_elems(op_stack).len() + (if more {
                1int
            } else {
                0int
            }),
        {
            let ghost ops0 = op_elems(op_stack);
            let ghost q0 = views_of(node_elems(expr_queue));
            match op_vec_pop(&mut op_stack) {
                None => {
                    proof {
                        assert(spec_drain(q0, ops0) == Ok::<Seq<NodeView>, Span>(q0));
                    }
                    more = false;
                },
                Some(top) => {
                    match top.op {
                        StackOp::Open => {
                            let e = ParseError {
                                original: original.to_owned(),
                                span: top.span,
                                reason: Reason::UnclosedParens,
                            };
                            proof {
                                assert(spec_drain(q0, ops0) == Err::<Seq<NodeView>, Span>(
                                    top.span,
                                ));
                                assert(spec_finish(st_end, L) == Err::<Seq<NodeView>, _>(e@));
                            }
                            return Err(e);
                        },
                        StackOp::And => {
                            proof {
                                lemma_bins_nonneg(ops0.drop_last());
                                assert(bins(ops0) == bins(ops0.drop_last()) + 1);
                                assert(spec_drain(q0, ops0) == spec_drain(
                                    q0.push(op_node(ops0.last().op)),
                                    ops0.drop_last(),
                                ));
                            }
                            emit_op(&mut expr_queue, Operator::And);
                        },
                        StackOp::Or => {
                            proof {
                                lemma_bins_nonneg(ops0.drop_last());
                                assert(bins(ops0) == bins(ops0.drop_last()) + 1);
                                assert(spec_drain(q0, ops0) == spec_drain(
                                    q0.push(op_node(ops0.last().op)),
                                    ops0.drop_last(),
                                ));
                            }
                            emit_op(&mut expr_queue, Operator::Or);
                        },
                    }
                },
            }
        }
        let e = Expression { expr: expr_queue, original: original.to_owned() };
        assert(wf_nodes(e@));
        proof {
            crate::expression::lemma_num_reqs_ge_balance(e@);
            assert(spec_finish(st_end, L) == Ok::<Seq<NodeView>, ParseErrorView>(e@));
        }
        Ok(e)
    }
}

} // verus!
