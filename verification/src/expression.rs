//! The parsed form of a license expression and its evaluators.

use crate::smallvec_specs::{
    bool_elems, bool_vec_new, bool_vec_pop, bool_vec_push, node_elems, node_vec_get, node_vec_len,
};
use crate::{LicenseReq, LicenseReqView, Span};
use vstd::prelude::*;

verus! {

/// A license requirement inside a license expression, together with the
/// span in the expression text where it is located.
#[derive(Debug, Clone)]
pub struct ExpressionReq {
    pub req: LicenseReq,
    pub span: Span,
}

/// Mathematical value of an [`ExpressionReq`].
pub ghost struct ExpressionReqView {
    pub req: LicenseReqView,
    pub span: Span,
}

impl View for ExpressionReq {
    type V = ExpressionReqView;

    open spec fn view(&self) -> ExpressionReqView {
        ExpressionReqView { req: self.req@, span: self.span }
    }
}

impl PartialEq for ExpressionReq {
    /// Two requirements are equal when their license terms are: the span is
    /// ignored, so the same requirement written at different places compares
    /// equal.
    fn eq(&self, o: &Self) -> (r: bool) {
        self.req == o.req
    }
}

impl vstd::std_specs::cmp::PartialEqSpecImpl for ExpressionReq {
    open spec fn obeys_eq_spec() -> bool {
        true
    }

    open spec fn eq_spec(&self, o: &Self) -> bool {
        self.req@ == o.req@
    }
}

/// The joining operators of the expression grammar.
#[derive(Debug, PartialEq, Eq, Structural, PartialOrd, Ord, Copy, Clone)]
pub enum Operator {
    And,
    Or,
}

/// One node of the postfix node sequence.
#[derive(Debug, Clone)]
pub enum ExprNode {
    Op(Operator),
    Req(ExpressionReq),
}

/// Mathematical value of an [`ExprNode`].
pub ghost enum NodeView {
    Op(Operator),
    Req(ExpressionReqView),
}

impl View for ExprNode {
    type V = NodeView;

    open spec fn view(&self) -> NodeView {
        match self {
            ExprNode::Op(op) => NodeView::Op(*op),
            ExprNode::Req(req) => NodeView::Req(req@),
        }
    }
}

/// Node equality as the expression comparison uses it: operators must match,
/// requirements must have equal license terms, spans are ignored.
pub open spec fn node_equiv(a: NodeView, b: NodeView) -> bool {
    match (a, b) {
        (NodeView::Op(x), NodeView::Op(y)) => x == y,
        (NodeView::Req(x), NodeView::Req(y)) => x.req == y.req,
        _ => false,
    }
}

impl PartialEq for ExprNode {
    fn eq(&self, o: &Self) -> (r: bool) {
        match (self, o) {
            (ExprNode::Op(x), ExprNode::Op(y)) => x == y,
            (ExprNode::Req(x), ExprNode::Req(y)) => x == y,
            _ => false,
        }
    }
}

impl vstd::std_specs::cmp::PartialEqSpecImpl for ExprNode {
    open spec fn obeys_eq_spec() -> bool {
        true
    }

    open spec fn eq_spec(&self, o: &Self) -> bool {
        node_equiv(self@, o@)
    }
}

/// Number of requirement nodes in a node sequence.
pub open spec fn num_reqs(nodes: Seq<NodeView>) -> int
    decreases nodes.len(),
{
    if nodes.len() == 0 {
        0
    } else {
        num_reqs(nodes.drop_last()) + if nodes.last() matches NodeView::Req(_) {
            1int
        } else {
            0int
        }
    }
}

/// Stack height after replaying a node sequence: every requirement pushes
/// one value, every operator pops two and pushes one.
pub open spec fn balance(nodes: Seq<NodeView>) -> int
    decreases nodes.len(),
{
    if nodes.len() == 0 {
        0
    } else {
        balance(nodes.drop_last()) + if nodes.last() matches NodeView::Req(_) {
            1int
        } else {
            -1int
        }
    }
}

/// Every operator node finds at least two values on the stack.
pub open spec fn pops_safe(nodes: Seq<NodeView>) -> bool {
    forall|i: int|
        (0 <= i < nodes.len() && (#[trigger] nodes[i]) matches NodeView::Op(_)) ==> balance(
            nodes.take(i),
        ) >= 2
}

/// Well-formed postfix: replaying the sequence never underflows the stack
/// and leaves exactly one value. Established by the parser, required by the
/// evaluators.
pub open spec fn wf_nodes(nodes: Seq<NodeView>) -> bool {
    &&& pops_safe(nodes)
    &&& balance(nodes) == 1
}

/// The requirement nodes of a node sequence, in order, operators excluded.
pub open spec fn reqs_of(nodes: Seq<NodeView>) -> Seq<ExpressionReqView>
    decreases nodes.len(),
{
    if nodes.len() == 0 {
        Seq::empty()
    } else {
        reqs_of(nodes.drop_last()) + match nodes.last() {
            NodeView::Req(r) => seq![r],
            NodeView::Op(_) => Seq::<ExpressionReqView>::empty(),
        }
    }
}

/// The spans of the requirement nodes, in node order.
pub open spec fn req_spans(nodes: Seq<NodeView>) -> Seq<Span> {
    reqs_of(nodes).map_values(|r: ExpressionReqView| r.span)
}

/// The spans lie inside a text of length `limit` and come in source order:
/// each requirement starts no earlier than the previous one ended.
pub open spec fn spans_in_order(spans: Seq<Span>, limit: int) -> bool {
    &&& forall|a: int| 0 <= a < spans.len() ==> (#[trigger] spans[a]).start <= spans[a].end
        && spans[a].end <= limit
    &&& forall|a: int, b: int|
        0 <= a < b < spans.len() ==> (#[trigger] spans[a]).end <= (#[trigger] spans[b]).start
}

/// Appending a requirement node appends its span; appending an operator
/// leaves the requirement spans alone.
pub proof fn lemma_req_spans_push(nodes: Seq<NodeView>, n: NodeView)
    ensures
        n matches NodeView::Req(r) ==> req_spans(nodes.push(n)) == req_spans(nodes).push(r.span),
        n matches NodeView::Op(_) ==> req_spans(nodes.push(n)) == req_spans(nodes),
{
    assert(nodes.push(n).drop_last() =~= nodes);
    match n {
        NodeView::Req(r) => {
            assert(reqs_of(nodes.push(n)) =~= reqs_of(nodes).push(r));
            assert(req_spans(nodes.push(n)) =~= req_spans(nodes).push(r.span));
        },
        NodeView::Op(_) => {
            assert(reqs_of(nodes.push(n)) =~= reqs_of(nodes));
            assert(req_spans(nodes.push(n)) =~= req_spans(nodes));
        },
    }
}

/// What an operator does to the two most recent results: `b` was pushed
/// after `a`.
pub open spec fn apply_op(op: Operator, a: bool, b: bool) -> bool {
    match op {
        Operator::And => a && b,
        Operator::Or => a || b,
    }
}

/// One step of the evaluation stack. A requirement pushes its answer; an
/// operator combines the top two values (identity on a stack that is too
/// short, which a well-formed sequence never produces).
pub open spec fn step_stack(stack: Seq<bool>, node: NodeView, ans: bool) -> Seq<bool> {
    match node {
        NodeView::Req(_) => stack.push(ans),
        NodeView::Op(op) => if stack.len() >= 2 {
            stack.take(stack.len() - 2).push(
                apply_op(op, stack[stack.len() - 2], stack[stack.len() - 1]),
            )
        } else {
            stack
        },
    }
}

/// The evaluation stack after the first `i` nodes, where the `k`-th
/// requirement node consumes `answers[k]`.
pub open spec fn stack_after(nodes: Seq<NodeView>, answers: Seq<bool>, i: int) -> Seq<bool>
    decreases i,
{
    if i <= 0 {
        Seq::empty()
    } else {
        step_stack(
            stack_after(nodes, answers, i - 1),
            nodes[i - 1],
            answers[num_reqs(nodes.take(i - 1))],
        )
    }
}

/// The boolean a well-formed node sequence evaluates to when the `k`-th
/// requirement node receives the answer `answers[k]`.
pub open spec fn spec_eval(nodes: Seq<NodeView>, answers: Seq<bool>) -> bool {
    stack_after(nodes, answers, nodes.len() as int).last()
}

/// The requirement nodes whose answer is false, in traversal order. This is
/// what failure-tracking evaluation reports, and it deliberately includes a
/// false requirement even when a sibling satisfied the enclosing `OR`.
pub open spec fn spec_failures(nodes: Seq<NodeView>, answers: Seq<bool>) -> Seq<ExpressionReqView>
    decreases nodes.len(),
{
    if nodes.len() == 0 {
        Seq::empty()
    } else {
        spec_failures(nodes.drop_last(), answers) + match nodes.last() {
            NodeView::Req(r) => if !answers[num_reqs(nodes.drop_last())] {
                seq![r]
            } else {
                Seq::<ExpressionReqView>::empty()
            },
            NodeView::Op(_) => Seq::<ExpressionReqView>::empty(),
        }
    }
}

/// A parsed license expression: the postfix node sequence plus the original
/// text, kept verbatim for display.
///
/// [`Expression::parse`] is the intended constructor: it is what establishes
/// [`Expression::wf`], which the evaluators require.
#[derive(Debug)]
pub struct Expression {
    pub expr: crate::smallvec_specs::NodeVec,
    pub original: String,
}

impl View for Expression {
    type V = Seq<NodeView>;

    open spec fn view(&self) -> Seq<NodeView> {
        node_elems(self.expr).map_values(|n: ExprNode| n@)
    }
}

impl Expression {
    /// The postfix node sequence as executable values.
    pub open spec fn nodes(&self) -> Seq<ExprNode> {
        node_elems(self.expr)
    }

    /// The original expression text.
    pub open spec fn text(&self) -> Seq<char> {
        self.original@
    }

    /// The node sequence is well-formed postfix. The parser establishes
    /// this for every expression it returns.
    pub open spec fn wf(&self) -> bool {
        wf_nodes(self@)
    }

    /// The expression text this value was parsed from, verbatim.
    pub fn original_text(&self) -> (r: &str)
        ensures
            r@ == self.text(),
    {
        self.original.as_str()
    }

    /// The number of nodes in the postfix sequence.
    pub fn node_count(&self) -> (r: usize)
        ensures
            r == self@.len(),
    {
        node_vec_len(&self.expr)
    }

    /// The node at the given position of the postfix sequence.
    pub fn node_at(&self, i: usize) -> (r: &ExprNode)
        requires
            i < self@.len(),
        ensures
            *r == self.nodes()[i as int],
            r@ == self@[i as int],
    {
        node_vec_get(&self.expr, i)
    }
}

/// The node views of a sequence of executable nodes.
pub open spec fn views_of(ns: Seq<ExprNode>) -> Seq<NodeView> {
    ns.map_values(|n: ExprNode| n@)
}

/// Every answer is one the predicate can return for the requirement node it
/// was asked about: the `k`-th requirement node ties to `ans[k]`.
#[verifier::opaque]
pub open spec fn answers_ok<F: Fn(&LicenseReq) -> bool>(
    f: F,
    ns: Seq<ExprNode>,
    ans: Seq<bool>,
) -> bool {
    forall|j: int|
        0 <= j < ns.len() ==> ((#[trigger] ns[j]) matches ExprNode::Req(er) ==> call_ensures(
            f,
            (&er.req,),
            ans[num_reqs(views_of(ns).take(j))],
        ))
}

/// `answers_ok` restricted to the first `i` nodes.
#[verifier::opaque]
pub open spec fn answers_ok_prefix<F: Fn(&LicenseReq) -> bool>(
    f: F,
    ns: Seq<ExprNode>,
    ans: Seq<bool>,
    i: int,
) -> bool {
    forall|j: int|
        0 <= j < i && j < ns.len() ==> ((#[trigger] ns[j]) matches ExprNode::Req(er)
            ==> call_ensures(f, (&er.req,), ans[num_reqs(views_of(ns).take(j))]))
}

/// Appending the answer for requirement node `i` extends answer consistency
/// from the first `i` nodes to the first `i + 1`.
pub proof fn lemma_answers_push<F: Fn(&LicenseReq) -> bool>(
    f: F,
    ns: Seq<ExprNode>,
    ans: Seq<bool>,
    i: int,
    b: bool,
)
    requires
        0 <= i < ns.len(),
        ans.len() == num_reqs(views_of(ns).take(i)),
        answers_ok_prefix(f, ns, ans, i),
        ns[i] matches ExprNode::Req(er) && call_ensures(f, (&er.req,), b),
    ensures
        answers_ok_prefix(f, ns, ans.push(b), i + 1),
{
    reveal(answers_ok_prefix);
    let ans2 = ans.push(b);
    let vs = views_of(ns);
    assert forall|j: int| 0 <= j < i + 1 && j < ns.len() implies ((#[trigger] ns[j]) matches
        ExprNode::Req(er) ==> call_ensures(f, (&er.req,), ans2[num_reqs(vs.take(j))])) by {
        lemma_num_reqs_nonneg(vs.take(j));
        if j < i {
            if ns[j] matches ExprNode::Req(_) {
                lemma_take_step(vs, j);
                lemma_num_reqs_take_mono(vs, j + 1, i);
            }
        } else {
            assert(vs[i] matches NodeView::Req(_));
        }
    }
}

/// No answers at all are consistent with the empty prefix.
pub proof fn lemma_answers_empty<F: Fn(&LicenseReq) -> bool>(f: F, ns: Seq<ExprNode>, ans: Seq<
    bool,
>)
    ensures
        answers_ok_prefix(f, ns, ans, 0),
{
    reveal(answers_ok_prefix);
}

/// An operator node consumes no answer: consistency extends past it
/// unchanged.
pub proof fn lemma_answers_skip_op<F: Fn(&LicenseReq) -> bool>(
    f: F,
    ns: Seq<ExprNode>,
    ans: Seq<bool>,
    i: int,
)
    requires
        0 <= i < ns.len(),
        answers_ok_prefix(f, ns, ans, i),
        ns[i] matches ExprNode::Op(_),
    ensures
        answers_ok_prefix(f, ns, ans, i + 1),
{
    reveal(answers_ok_prefix);
}

/// Consistency over the whole sequence is consistency over its full prefix.
pub proof fn lemma_answers_complete<F: Fn(&LicenseReq) -> bool>(
    f: F,
    ns: Seq<ExprNode>,
    ans: Seq<bool>,
)
    requires
        answers_ok_prefix(f, ns, ans, ns.len() as int),
    ensures
        answers_ok(f, ns, ans),
{
    reveal(answers_ok_prefix);
    reveal(answers_ok);
}

/// Taking one more node splits off exactly that node.
pub proof fn lemma_take_step(nodes: Seq<NodeView>, i: int)
    requires
        0 <= i < nodes.len(),
    ensures
        nodes.take(i + 1).drop_last() == nodes.take(i),
        nodes.take(i + 1).last() == nodes[i],
        balance(nodes.take(i + 1)) == balance(nodes.take(i)) + (if nodes[i] matches NodeView::Req(
            _,
        ) {
            1int
        } else {
            -1int
        }),
        num_reqs(nodes.take(i + 1)) == num_reqs(nodes.take(i)) + (if nodes[i] matches NodeView::Req(
            _,
        ) {
            1int
        } else {
            0int
        }),
{
    assert(nodes.take(i + 1).drop_last() =~= nodes.take(i));
}

/// A node sequence holds at least as many requirement nodes as its balance:
/// in particular a well-formed sequence holds at least one requirement.
pub proof fn lemma_num_reqs_ge_balance(nodes: Seq<NodeView>)
    ensures
        num_reqs(nodes) >= balance(nodes),
    decreases nodes.len(),
{
    if nodes.len() > 0 {
        lemma_num_reqs_ge_balance(nodes.drop_last());
    }
}

/// A node sequence holds a nonnegative number of requirement nodes.
pub proof fn lemma_num_reqs_nonneg(nodes: Seq<NodeView>)
    ensures
        num_reqs(nodes) >= 0,
    decreases nodes.len(),
{
    if nodes.len() > 0 {
        lemma_num_reqs_nonneg(nodes.drop_last());
    }
}

/// The number of requirement nodes never decreases along a prefix.
pub proof fn lemma_num_reqs_take_mono(nodes: Seq<NodeView>, a: int, b: int)
    requires
        0 <= a <= b <= nodes.len(),
    ensures
        num_reqs(nodes.take(a)) <= num_reqs(nodes.take(b)),
    decreases b - a,
{
    if a < b {
        lemma_num_reqs_take_mono(nodes, a, b - 1);
        lemma_take_step(nodes, b - 1);
    }
}

/// While every operator finds two values, the evaluation stack's height is
/// the balance of the prefix already replayed.
pub proof fn lemma_stack_after_len(nodes: Seq<NodeView>, answers: Seq<bool>, i: int)
    requires
        0 <= i <= nodes.len(),
        pops_safe(nodes),
    ensures
        stack_after(nodes, answers, i).len() == balance(nodes.take(i)),
    decreases i,
{
    if i > 0 {
        lemma_stack_after_len(nodes, answers, i - 1);
        lemma_take_step(nodes, i - 1);
    } else {
        assert(nodes.take(0) =~= Seq::<NodeView>::empty());
    }
}

/// The stack after `i` nodes reads only the answers of the requirement
/// nodes among them.
pub proof fn lemma_stack_after_agree(nodes: Seq<NodeView>, a1: Seq<bool>, a2: Seq<bool>, i: int)
    requires
        0 <= i <= nodes.len(),
        forall|k: int| 0 <= k < num_reqs(nodes.take(i)) ==> a1[k] == a2[k],
    ensures
        stack_after(nodes, a1, i) == stack_after(nodes, a2, i),
    decreases i,
{
    if i > 0 {
        lemma_take_step(nodes, i - 1);
        lemma_num_reqs_take_mono(nodes, i - 1, i);
        lemma_stack_after_agree(nodes, a1, a2, i - 1);
        if nodes[i - 1] matches NodeView::Req(_) {
            lemma_num_reqs_nonneg(nodes.take(i - 1));
            assert(num_reqs(nodes.take(i - 1)) < num_reqs(nodes.take(i)));
            assert(a1[num_reqs(nodes.take(i - 1))] == a2[num_reqs(nodes.take(i - 1))]);
        }
        assert(stack_after(nodes, a1, i) == step_stack(
            stack_after(nodes, a1, i - 1),
            nodes[i - 1],
            a1[num_reqs(nodes.take(i - 1))],
        ));
        assert(stack_after(nodes, a2, i) == step_stack(
            stack_after(nodes, a2, i - 1),
            nodes[i - 1],
            a2[num_reqs(nodes.take(i - 1))],
        ));
    }
}

/// The failure list after a node sequence reads only the answers of its
/// requirement nodes.
pub proof fn lemma_failures_agree(nodes: Seq<NodeView>, a1: Seq<bool>, a2: Seq<bool>)
    requires
        forall|k: int| 0 <= k < num_reqs(nodes) ==> a1[k] == a2[k],
    ensures
        spec_failures(nodes, a1) == spec_failures(nodes, a2),
    decreases nodes.len(),
{
    if nodes.len() > 0 {
        assert(num_reqs(nodes.drop_last()) <= num_reqs(nodes));
        lemma_failures_agree(nodes.drop_last(), a1, a2);
        if nodes.last() matches NodeView::Req(_) {
            lemma_num_reqs_nonneg(nodes.drop_last());
            assert(num_reqs(nodes.drop_last()) < num_reqs(nodes));
            assert(a1[num_reqs(nodes.drop_last())] == a2[num_reqs(nodes.drop_last())]);
        }
    }
}

impl Expression {
    /// Each of the license requirements in the expression, in source order,
    /// without the operators that join them.
    pub fn requirements(&self) -> (r: Vec<&ExpressionReq>)
        ensures
            r@.map_values(|x: &ExpressionReq| x@) == reqs_of(self@),
    {
        let len = node_vec_len(&self.expr);
        let mut r: Vec<&ExpressionReq> = Vec::new();
        let mut i: usize = 0;
        assert(self@.take(0) =~= Seq::<NodeView>::empty());
        assert(r@.map_values(|x: &ExpressionReq| x@) =~= reqs_of(self@.take(0)));
        while i < len
            invariant
                len == self.nodes().len(),
                self@.len() == len,
                i <= len,
                r@.map_values(|x: &ExpressionReq| x@) == reqs_of(self@.take(i as int)),
            decreases len - i,
        {
            proof {
                lemma_take_step(self@, i as int);
            }
            let ghost prev = r@;
            let node = node_vec_get(&self.expr, i);
            match node {
                ExprNode::Req(req) => {
                    r.push(req);
                    assert(r@.map_values(|x: &ExpressionReq| x@) =~= prev.map_values(
                        |x: &ExpressionReq| x@,
                    ).push(req@));
                    assert(reqs_of(self@.take(i + 1)) =~= reqs_of(self@.take(i as int)).push(
                        req@,
                    ));
                },
                ExprNode::Op(_) => {
                    assert(reqs_of(self@.take(i + 1)) =~= reqs_of(self@.take(i as int)));
                },
            }
            i = i + 1;
        }
        assert(self@.take(len as int) =~= self@);
        r
    }

    /// Evaluates the expression with the provided predicate deciding whether
    /// each license requirement is met. The result is the boolean the postfix
    /// sequence evaluates to under some vector of answers the predicate can
    /// return, one per requirement node in traversal order.
    #[verifier::rlimit(100)]
    #[verifier::spinoff_prover]
    pub fn evaluate<F: Fn(&LicenseReq) -> bool>(&self, allow_func: F) -> (r: bool)
        requires
            self.wf(),
            forall|q: &LicenseReq| #[trigger] call_requires(allow_func, (q,)),
        ensures
            exists|ans: Seq<bool>|
                #![auto]
                ans.len() == num_reqs(self@) && answers_ok(allow_func, self.nodes(), ans) && r
                    == spec_eval(self@, ans),
    {
        let len = node_vec_len(&self.expr);
        let mut stack = bool_vec_new();
        let ghost mut ans: Seq<bool> = Seq::empty();
        let mut i: usize = 0;
        assert(self@.take(0) =~= Seq::<NodeView>::empty());
        proof {
            lemma_answers_empty(allow_func, self.nodes(), ans);
        }
        while i < len
            invariant
                self.wf(),
                len == self.nodes().len(),
                self@.len() == len,
                i <= len,
                forall|q: &LicenseReq| #[trigger] call_requires(allow_func, (q,)),
                ans.len() == num_reqs(self@.take(i as int)),
                answers_ok_prefix(allow_func, self.nodes(), ans, i as int),
                bool_elems(stack) == stack_after(self@, ans, i as int),
            decreases len - i,
        {
            proof {
                lemma_take_step(self@, i as int);
            }
            let node = node_vec_get(&self.expr, i);
            match node {
                ExprNode::Req(req) => {
                    let b = allow_func(&req.req);
                    bool_vec_push(&mut stack, b);
                    proof {
                        lemma_stack_after_agree(self@, ans, ans.push(b), i as int);
                        lemma_answers_push(allow_func, self.nodes(), ans, i as int, b);
                        let ans2 = ans.push(b);
                        assert(stack_after(self@, ans2, i + 1) == stack_after(
                            self@,
                            ans,
                            i as int,
                        ).push(b));
                        ans = ans2;
                    }
                },
                ExprNode::Op(op) => {
                    proof {
                        lemma_stack_after_len(self@, ans, i as int);
                        assert(self@[i as int] matches NodeView::Op(_));
                        assert(balance(self@.take(i as int)) >= 2);
                        lemma_answers_skip_op(allow_func, self.nodes(), ans, i as int);
                    }
                    let b2 = bool_vec_pop(&mut stack);
                    let b1 = bool_vec_pop(&mut stack);
                    let (a, b) = match (b1, b2) {
                        (Some(x), Some(y)) => (x, y),
                        _ => (false, false),
                    };
                    let c = match op {
                        Operator::And => a && b,
                        Operator::Or => a || b,
                    };
                    bool_vec_push(&mut stack, c);
                    proof {
                        let s = stack_after(self@, ans, i as int);
                        assert(s.drop_last().drop_last() =~= s.take(s.len() - 2));
                        assert(bool_elems(stack) == stack_after(self@, ans, i + 1));
                    }
                },
            }
            i = i + 1;
        }
        assert(self@.take(len as int) =~= self@);
        proof {
            lemma_stack_after_len(self@, ans, len as int);
            lemma_answers_complete(allow_func, self.nodes(), ans);
        }
        let r = match bool_vec_pop(&mut stack) {
            Some(x) => x,
            None => false,
        };
        assert(ans.len() == num_reqs(self@) && answers_ok(allow_func, self.nodes(), ans) && r
            == spec_eval(self@, ans));
        r
    }

    /// Evaluates like [`Expression::evaluate`], but also records every
    /// requirement whose predicate call returned false, in traversal order.
    /// When the whole expression still evaluates to true the result is `Ok`;
    /// otherwise the recorded requirements are returned. The list keeps a
    /// false requirement even when a sibling satisfied the enclosing `OR`.
    #[verifier::rlimit(100)]
    #[verifier::spinoff_prover]
    pub fn evaluate_with_failures<'a, F: Fn(&LicenseReq) -> bool>(
        &'a self,
        allow_func: F,
    ) -> (r: Result<(), Vec<&'a ExpressionReq>>)
        requires
            self.wf(),
            forall|q: &LicenseReq| #[trigger] call_requires(allow_func, (q,)),
        ensures
            exists|ans: Seq<bool>|
                #![auto]
                ans.len() == num_reqs(self@) && answers_ok(allow_func, self.nodes(), ans) && match r {
                    Ok(_) => spec_eval(self@, ans),
                    Err(fails) => !spec_eval(self@, ans) && fails@.map_values(
                        |x: &ExpressionReq| x@,
                    ) == spec_failures(self@, ans),
                },
    {
        let len = node_vec_len(&self.expr);
        let mut stack = bool_vec_new();
        let mut failures: Vec<&'a ExpressionReq> = Vec::new();
        let ghost mut ans: Seq<bool> = Seq::empty();
        let mut i: usize = 0;
        assert(self@.take(0) =~= Seq::<NodeView>::empty());
        assert(failures@.map_values(|x: &ExpressionReq| x@) =~= spec_failures(self@.take(0), ans));
        proof {
            lemma_answers_empty(allow_func, self.nodes(), ans);
        }
        while i < len
            invariant
                self.wf(),
                len == self.nodes().len(),
                self@.len() == len,
                i <= len,
                forall|q: &LicenseReq| #[trigger] call_requires(allow_func, (q,)),
                ans.len() == num_reqs(self@.take(i as int)),
                answers_ok_prefix(allow_func, self.nodes(), ans, i as int),
                bool_elems(stack) == stack_after(self@, ans, i as int),
                failures@.map_values(|x: &ExpressionReq| x@) == spec_failures(
                    self@.take(i as int),
                    ans,
                ),
            decreases len - i,
        {
            proof {
                lemma_take_step(self@, i as int);
            }
            let ghost prev_fails = failures@;
            let node = node_vec_get(&self.expr, i);
            match node {
                ExprNode::Req(req) => {
                    let b = allow_func(&req.req);
                    bool_vec_push(&mut stack, b);
                    if !b {
                        failures.push(req);
                    }
                    proof {
                        lemma_stack_after_agree(self@, ans, ans.push(b), i as int);
                        lemma_failures_agree(self@.take(i as int), ans, ans.push(b));
                        lemma_answers_push(allow_func, self.nodes(), ans, i as int, b);
                        let ans2 = ans.push(b);
                        assert(stack_after(self@, ans2, i + 1) == stack_after(
                            self@,
                            ans,
                            i as int,
                        ).push(b));
                        ans = ans2;
                        if !b {
                            assert(failures@.map_values(|x: &ExpressionReq| x@)
                                == prev_fails.map_values(|x: &ExpressionReq| x@).push(req@)) by {
                                assert(failures@.map_values(|x: &ExpressionReq| x@)
                                    =~= prev_fails.map_values(|x: &ExpressionReq| x@).push(req@));
                            }
                            assert(spec_failures(self@.take(i + 1), ans) == spec_failures(
                                self@.take(i as int),
                                ans,
                            ).push(req@)) by {
                                assert(spec_failures(self@.take(i + 1), ans) =~= spec_failures(
                                    self@.take(i as int),
                                    ans,
                                ).push(req@));
                            }
                        } else {
                            assert(spec_failures(self@.take(i + 1), ans) == spec_failures(
                                self@.take(i as int),
                                ans,
                            )) by {
                                assert(spec_failures(self@.take(i + 1), ans) =~= spec_failures(
                                    self@.take(i as int),
                                    ans,
                                ));
                            }
                        }
                    }
                },
                ExprNode::Op(_) => {
                    proof {
                        lemma_stack_after_len(self@, ans, i as int);
                        assert(self@[i as int] matches NodeView::Op(_));
                        assert(balance(self@.take(i as int)) >= 2);
                        lemma_answers_skip_op(allow_func, self.nodes(), ans, i as int);
                    }
                    let b2 = bool_vec_pop(&mut stack);
                    let b1 = bool_vec_pop(&mut stack);
                    let (a, b) = match (b1, b2) {
                        (Some(x), Some(y)) => (x, y),
                        _ => (false, false),
                    };
                    let c = match node {
                        ExprNode::Op(Operator::And) => a && b,
                        _ => a || b,
                    };
                    bool_vec_push(&mut stack, c);
                    proof {
                        let s = stack_after(self@, ans, i as int);
                        assert(s.drop_last().drop_last() =~= s.take(s.len() - 2));
                        assert(bool_elems(stack) == stack_after(self@, ans, i + 1));
                        assert(spec_failures(self@.take(i + 1), ans) =~= spec_failures(
                            self@.take(i as int),
                            ans,
                        ));
                    }
                },
            }
            i = i + 1;
        }
        assert(self@.take(len as int) =~= self@);
        proof {
            lemma_stack_after_len(self@, ans, len as int);
            lemma_answers_complete(allow_func, self.nodes(), ans);
        }
        let ok = match bool_vec_pop(&mut stack) {
            Some(x) => x,
            None => false,
        };
        if ok {
            assert(ans.len() == num_reqs(self@) && answers_ok(allow_func, self.nodes(), ans)
                && spec_eval(self@, ans));
            Ok(())
        } else {
            assert(ans.len() == num_reqs(self@) && answers_ok(allow_func, self.nodes(), ans)
                && !spec_eval(self@, ans) && failures@.map_values(|x: &ExpressionReq| x@)
                == spec_failures(self@, ans));
            Err(failures)
        }
    }
}

/// Structural equality of two node sequences, span-insensitive.
pub open spec fn exprs_equiv(a: Seq<NodeView>, b: Seq<NodeView>) -> bool {
    &&& a.len() == b.len()
    &&& forall|i: int| 0 <= i < a.len() ==> node_equiv(#[trigger] a[i], b[i])
}

impl PartialEq for Expression {
    /// Expressions compare by their postfix node sequences, not by their
    /// original text: redundant parentheses do not affect equality, while
    /// requirement spans are ignored. This is not logical equivalence:
    /// operand order and nesting matter exactly as encoded.
    fn eq(&self, o: &Self) -> (r: bool) {
        let len = node_vec_len(&self.expr);
        let olen = node_vec_len(&o.expr);
        if len != olen {
            return false;
        }
        let mut i: usize = 0;
        while i < len
            invariant
                len == self.nodes().len() == o.nodes().len(),
                self@.len() == len,
                o@.len() == len,
                i <= len,
                forall|j: int| 0 <= j < i ==> node_equiv(#[trigger] self@[j], o@[j]),
            decreases len - i,
        {
            let a = node_vec_get(&self.expr, i);
            let b = node_vec_get(&o.expr, i);
            if !a.eq(b) {
                assert(!node_equiv(self@[i as int], o@[i as int]));
                assert(!exprs_equiv(self@, o@));
                return false;
            }
            i = i + 1;
        }
        true
    }
}

impl vstd::std_specs::cmp::PartialEqSpecImpl for Expression {
    open spec fn obeys_eq_spec() -> bool {
        true
    }

    open spec fn eq_spec(&self, o: &Self) -> bool {
        exprs_equiv(self@, o@)
    }
}

} // verus!
