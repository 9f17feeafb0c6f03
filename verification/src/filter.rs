//! Boolean predicates for filtering tagged intervals.
//!
//! A filter is a boolean expression over terminal predicates, combined with
//! AND/OR/NOT and evaluated against one tagged interval. It is stored as a
//! flattened postfix (reverse-Polish) sequence of nodes and evaluated with a
//! small value stack, so composing two filters is an append plus one
//! operator node.

use vstd::prelude::*;

use crate::interval::{spec_duration_at, TagId, TaggedInterval, MAX_TIME};

verus! {

/// One node of a filter's postfix representation: a terminal predicate or a
/// boolean operator over the value stack.
#[derive(Debug, Clone, Copy, PartialEq, Eq, Structural, Hash)]
pub enum FilterNode {
    /// Constant true.
    True,
    /// Constant false.
    False,
    /// True if the interval has the given tag.
    HasTag(TagId),
    /// True if the interval is closed.
    IsClosed,
    /// True if the interval started at or before this time.
    StartedBefore(u64),
    /// True if the interval ended at or before this time (false if open).
    EndedBefore(u64),
    /// True if the interval's duration is at most this many seconds.
    ShorterThan(u64),
    /// True if the interval started strictly before this time.
    StartedBeforeStrict(u64),
    /// True if the interval ended strictly before this time (false if open).
    EndedBeforeStrict(u64),
    /// True if the interval's duration is strictly below this many seconds.
    ShorterThanStrict(u64),
    /// Invert the top of the stack.
    Not,
    /// AND the top two stack values.
    And,
    /// OR the top two stack values.
    Or,
}

/// Whether a terminal node's predicate holds of the given tagged interval at
/// instant `now` (`now` only matters for duration tests on open intervals).
pub open spec fn node_matches(node: FilterNode, ti: TaggedInterval, now: u64) -> bool {
    match node {
        FilterNode::True => true,
        FilterNode::False => false,
        FilterNode::HasTag(t) => ti.tag == t,
        FilterNode::IsClosed => ti.interval.duration is Some,
        FilterNode::StartedBefore(t) => ti.interval.start <= t,
        FilterNode::StartedBeforeStrict(t) => ti.interval.start < t,
        FilterNode::EndedBefore(t) => ti.interval.duration is Some && ti.interval.spec_end() <= t,
        FilterNode::EndedBeforeStrict(t) => ti.interval.duration is Some
            && ti.interval.spec_end() < t,
        FilterNode::ShorterThan(d) => spec_duration_at(ti.interval, now) <= d,
        FilterNode::ShorterThanStrict(d) => spec_duration_at(ti.interval, now) < d,
        FilterNode::Not => false,
        FilterNode::And => false,
        FilterNode::Or => false,
    }
}

/// How many stack values a node consumes (it always pushes one).
pub open spec fn node_arity(node: FilterNode) -> int {
    match node {
        FilterNode::Not => 1,
        FilterNode::And => 2,
        FilterNode::Or => 2,
        _ => 0,
    }
}

/// The top of a value stack; an exhausted stack reads as false.
pub open spec fn spec_top(st: Seq<bool>) -> bool {
    if st.len() > 0 {
        st.last()
    } else {
        false
    }
}

/// A value stack with its top removed; popping an exhausted stack is a no-op.
pub open spec fn spec_pop(st: Seq<bool>) -> Seq<bool> {
    if st.len() > 0 {
        st.drop_last()
    } else {
        st
    }
}

/// The effect of one node on the value stack.
pub open spec fn apply_node(node: FilterNode, ti: TaggedInterval, now: u64, st: Seq<bool>) -> Seq<
    bool,
> {
    match node {
        FilterNode::Not => spec_pop(st).push(!spec_top(st)),
        FilterNode::And => spec_pop(spec_pop(st)).push(
            spec_top(spec_pop(st)) && spec_top(st),
        ),
        FilterNode::Or => spec_pop(spec_pop(st)).push(spec_top(spec_pop(st)) || spec_top(st)),
        _ => st.push(node_matches(node, ti, now)),
    }
}

/// Run a node sequence over a value stack, front to back.
pub open spec fn run_nodes(
    nodes: Seq<FilterNode>,
    ti: TaggedInterval,
    now: u64,
    st: Seq<bool>,
) -> Seq<bool>
    decreases nodes.len(),
{
    if nodes.len() == 0 {
        st
    } else {
        run_nodes(nodes.drop_first(), ti, now, apply_node(nodes[0], ti, now, st))
    }
}

/// What a node sequence evaluates to on a tagged interval: the final stack
/// top (false for an empty sequence).
pub open spec fn spec_eval(nodes: Seq<FilterNode>, ti: TaggedInterval, now: u64) -> bool {
    spec_top(run_nodes(nodes, ti, now, Seq::empty()))
}

/// Every operator in the sequence finds its operands on the stack when the
/// run starts from `k` values.
pub open spec fn no_underflow(nodes: Seq<FilterNode>, k: int) -> bool
    decreases nodes.len(),
{
    if nodes.len() == 0 {
        true
    } else {
        k >= node_arity(nodes[0]) && no_underflow(nodes.drop_first(), k - node_arity(nodes[0]) + 1)
    }
}

/// The stack height after running the sequence from height `k` (meaningful
/// under `no_underflow`).
pub open spec fn stack_after(nodes: Seq<FilterNode>, k: int) -> int
    decreases nodes.len(),
{
    if nodes.len() == 0 {
        k
    } else {
        stack_after(nodes.drop_first(), k - node_arity(nodes[0]) + 1)
    }
}

/// A well-formed postfix sequence: one complete expression. Every filter the
/// constructors build satisfies this.
pub open spec fn wf_nodes(nodes: Seq<FilterNode>) -> bool {
    no_underflow(nodes, 0) && stack_after(nodes, 0) == 1
}

/// Running a concatenation runs the two halves in order.
proof fn lemma_run_concat(a: Seq<FilterNode>, b: Seq<FilterNode>, ti: TaggedInterval, now: u64, st: Seq<bool>)
    ensures
        run_nodes(a + b, ti, now, st) == run_nodes(b, ti, now, run_nodes(a, ti, now, st)),
    decreases a.len(),
{
    if a.len() == 0 {
        assert(a + b =~= b);
    } else {
        assert((a + b)[0] == a[0]);
        assert((a + b).drop_first() =~= a.drop_first() + b);
        lemma_run_concat(a.drop_first(), b, ti, now, apply_node(a[0], ti, now, st));
    }
}

/// A run that never underflows its own operands leaves the values below them
/// untouched, and its result height is `stack_after`.
proof fn lemma_run_frame(
    nodes: Seq<FilterNode>,
    ti: TaggedInterval,
    now: u64,
    st1: Seq<bool>,
    st2: Seq<bool>,
)
    requires
        no_underflow(nodes, st2.len() as int),
    ensures
        run_nodes(nodes, ti, now, st1 + st2) == st1 + run_nodes(nodes, ti, now, st2),
        run_nodes(nodes, ti, now, st2).len() == stack_after(nodes, st2.len() as int),
    decreases nodes.len(),
{
    if nodes.len() == 0 {
        assert(st1 + st2 =~= st1 + st2);
    } else {
        let node = nodes[0];
        let big = apply_node(node, ti, now, st1 + st2);
        let small = apply_node(node, ti, now, st2);
        assert(big =~= st1 + small && small.len() == st2.len() - node_arity(node) + 1) by {
            if node_arity(node) == 0 {
                assert((st1 + st2).push(node_matches(node, ti, now)) =~= st1 + st2.push(
                    node_matches(node, ti, now),
                ));
            } else if node_arity(node) == 1 {
                assert(st2.len() >= 1);
                assert(spec_top(st1 + st2) == spec_top(st2));
                assert(spec_pop(st1 + st2) =~= st1 + spec_pop(st2));
                assert((st1 + spec_pop(st2)).push(!spec_top(st2)) =~= st1 + spec_pop(st2).push(
                    !spec_top(st2),
                ));
            } else {
                assert(st2.len() >= 2);
                assert(spec_top(st1 + st2) == spec_top(st2));
                assert(spec_pop(st1 + st2) =~= st1 + spec_pop(st2));
                assert(spec_top(st1 + spec_pop(st2)) == spec_top(spec_pop(st2)));
                assert(spec_pop(st1 + spec_pop(st2)) =~= st1 + spec_pop(spec_pop(st2)));
                let v = if node is And {
                    spec_top(spec_pop(st2)) && spec_top(st2)
                } else {
                    spec_top(spec_pop(st2)) || spec_top(st2)
                };
                assert((st1 + spec_pop(spec_pop(st2))).push(v) =~= st1 + spec_pop(
                    spec_pop(st2),
                ).push(v));
            }
        }
        lemma_run_frame(nodes.drop_first(), ti, now, st1, small);
    }
}

/// `no_underflow` and `stack_after` compose over concatenation.
proof fn lemma_nu_concat(a: Seq<FilterNode>, b: Seq<FilterNode>, k: int)
    requires
        no_underflow(a, k),
        no_underflow(b, stack_after(a, k)),
    ensures
        no_underflow(a + b, k),
        stack_after(a + b, k) == stack_after(b, stack_after(a, k)),
    decreases a.len(),
{
    if a.len() == 0 {
        assert(a + b =~= b);
    } else {
        assert((a + b)[0] == a[0]);
        assert((a + b).drop_first() =~= a.drop_first() + b);
        lemma_nu_concat(a.drop_first(), b, k - node_arity(a[0]) + 1);
    }
}

/// One node runs as one application of `apply_node`.
proof fn lemma_run_single(node: FilterNode, ti: TaggedInterval, now: u64, st: Seq<bool>)
    ensures
        run_nodes(seq![node], ti, now, st) == apply_node(node, ti, now, st),
{
    let rest = seq![node].drop_first();
    assert(rest =~= Seq::<FilterNode>::empty());
    assert(run_nodes(rest, ti, now, apply_node(node, ti, now, st)) == apply_node(
        node,
        ti,
        now,
        st,
    ));
}

/// Stack bookkeeping for a single node.
proof fn lemma_nu_single(node: FilterNode, k: int)
    requires
        k >= node_arity(node),
    ensures
        no_underflow(seq![node], k),
        stack_after(seq![node], k) == k - node_arity(node) + 1,
{
    let rest = seq![node].drop_first();
    assert(rest =~= Seq::<FilterNode>::empty());
    assert(no_underflow(rest, k - node_arity(node) + 1));
    assert(stack_after(rest, k - node_arity(node) + 1) == k - node_arity(node) + 1);
}

/// A run that does not underflow a lower stack does not underflow a higher
/// one, and ends higher by the same amount.
proof fn lemma_nu_mono(nodes: Seq<FilterNode>, k: int, k2: int)
    requires
        no_underflow(nodes, k),
        k2 >= k,
    ensures
        no_underflow(nodes, k2),
        stack_after(nodes, k2) == stack_after(nodes, k) + (k2 - k),
    decreases nodes.len(),
{
    if nodes.len() > 0 {
        lemma_nu_mono(nodes.drop_first(), k - node_arity(nodes[0]) + 1, k2 - node_arity(nodes[0]) + 1);
    }
}

/// A single terminal node is a well-formed filter evaluating to its own
/// predicate.
proof fn lemma_single_node(node: FilterNode, ti: TaggedInterval, now: u64)
    requires
        node_arity(node) == 0,
    ensures
        wf_nodes(seq![node]),
        spec_eval(seq![node], ti, now) == node_matches(node, ti, now),
{
    lemma_nu_single(node, 0);
    lemma_run_single(node, ti, now, Seq::empty());
    assert(run_nodes(seq![node], ti, now, Seq::empty()) =~= seq![node_matches(node, ti, now)]);
}

/// A well-formed run from the empty stack yields exactly one value: the
/// filter's result.
proof fn lemma_wf_run(nodes: Seq<FilterNode>, ti: TaggedInterval, now: u64)
    requires
        wf_nodes(nodes),
    ensures
        run_nodes(nodes, ti, now, Seq::empty()) =~= seq![spec_eval(nodes, ti, now)],
{
    lemma_run_frame(nodes, ti, now, Seq::empty(), Seq::empty());
    assert(Seq::<bool>::empty() + Seq::<bool>::empty() =~= Seq::<bool>::empty());
    let r = run_nodes(nodes, ti, now, Seq::empty());
    assert(r.len() == 1);
    assert(r =~= seq![r.last()]);
}

/// Appending a binary operator to two well-formed sequences forms the
/// well-formed conjunction or disjunction.
proof fn lemma_binop(
    a: Seq<FilterNode>,
    b: Seq<FilterNode>,
    op: FilterNode,
    ti: TaggedInterval,
    now: u64,
)
    requires
        wf_nodes(a),
        wf_nodes(b),
        op is And || op is Or,
    ensures
        wf_nodes(a + b + seq![op]),
        op is And ==> spec_eval(a + b + seq![op], ti, now) == (spec_eval(a, ti, now) && spec_eval(
            b,
            ti,
            now,
        )),
        op is Or ==> spec_eval(a + b + seq![op], ti, now) == (spec_eval(a, ti, now) || spec_eval(
            b,
            ti,
            now,
        )),
{
    let ea = spec_eval(a, ti, now);
    let eb = spec_eval(b, ti, now);
    // Well-formedness of the concatenation.
    lemma_nu_mono(b, 0, 1);
    lemma_nu_concat(a, b, 0);
    assert(stack_after(a + b, 0) == 2);
    lemma_nu_single(op, 2);
    lemma_nu_concat(a + b, seq![op], 0);
    assert(wf_nodes(a + b + seq![op]));
    // Evaluation of the concatenation.
    lemma_run_concat(a + b, seq![op], ti, now, Seq::empty());
    lemma_run_concat(a, b, ti, now, Seq::empty());
    lemma_wf_run(a, ti, now);
    lemma_wf_run(b, ti, now);
    lemma_run_frame(b, ti, now, seq![ea], Seq::empty());
    assert(seq![ea] + Seq::<bool>::empty() =~= seq![ea]);
    assert(run_nodes(b, ti, now, seq![ea]) =~= seq![ea, eb]);
    let st2 = seq![ea, eb];
    assert(spec_top(st2) == eb && spec_top(spec_pop(st2)) == ea);
    let v = if op is And {
        ea && eb
    } else {
        ea || eb
    };
    assert(apply_node(op, ti, now, st2) =~= seq![v]);
    lemma_run_single(op, ti, now, st2);
}

/// Appending NOT to a well-formed sequence forms its well-formed negation.
proof fn lemma_notop(a: Seq<FilterNode>, ti: TaggedInterval, now: u64)
    requires
        wf_nodes(a),
    ensures
        wf_nodes(a + seq![FilterNode::Not]),
        spec_eval(a + seq![FilterNode::Not], ti, now) == !spec_eval(a, ti, now),
{
    let ea = spec_eval(a, ti, now);
    lemma_nu_single(FilterNode::Not, 1);
    lemma_nu_concat(a, seq![FilterNode::Not], 0);
    lemma_run_concat(a, seq![FilterNode::Not], ti, now, Seq::empty());
    lemma_wf_run(a, ti, now);
    assert(apply_node(FilterNode::Not, ti, now, seq![ea]) =~= seq![!ea]);
    lemma_run_single(FilterNode::Not, ti, now, seq![ea]);
}

/// Possible results from evaluating a filter without reference to an
/// interval.
#[derive(Debug, Clone, Copy, PartialOrd, Ord, PartialEq, Eq, Structural, Hash)]
pub enum ConstFilter {
    False,
    True,
    NonConst,
}

/// Constant-folding negation: inverts a constant, keeps `NonConst`.
pub open spec fn const_not(a: ConstFilter) -> ConstFilter {
    match a {
        ConstFilter::False => ConstFilter::True,
        ConstFilter::True => ConstFilter::False,
        ConstFilter::NonConst => ConstFilter::NonConst,
    }
}

/// Constant-folding conjunction: short-circuits on a constant operand.
pub open spec fn const_and(a: ConstFilter, b: ConstFilter) -> ConstFilter {
    if a is False || b is False {
        ConstFilter::False
    } else if a is True {
        b
    } else if b is True {
        a
    } else {
        ConstFilter::NonConst
    }
}

/// Constant-folding disjunction: short-circuits on a constant operand.
pub open spec fn const_or(a: ConstFilter, b: ConstFilter) -> ConstFilter {
    if a is True || b is True {
        ConstFilter::True
    } else if a is False {
        b
    } else if b is False {
        a
    } else {
        ConstFilter::NonConst
    }
}

/// The top of a constant stack; an exhausted stack reads as `False`.
pub open spec fn spec_ctop(st: Seq<ConstFilter>) -> ConstFilter {
    if st.len() > 0 {
        st.last()
    } else {
        ConstFilter::False
    }
}

/// A constant stack with its top removed.
pub open spec fn spec_cpop(st: Seq<ConstFilter>) -> Seq<ConstFilter> {
    if st.len() > 0 {
        st.drop_last()
    } else {
        st
    }
}

/// The effect of one node on the constant stack: operators fold constants;
/// any interval-dependent terminal yields `NonConst`.
pub open spec fn apply_cnode(node: FilterNode, st: Seq<ConstFilter>) -> Seq<ConstFilter> {
    match node {
        FilterNode::True => st.push(ConstFilter::True),
        FilterNode::False => st.push(ConstFilter::False),
        FilterNode::Not => spec_cpop(st).push(const_not(spec_ctop(st))),
        FilterNode::And => spec_cpop(spec_cpop(st)).push(
            const_and(spec_ctop(spec_cpop(st)), spec_ctop(st)),
        ),
        FilterNode::Or => spec_cpop(spec_cpop(st)).push(
            const_or(spec_ctop(spec_cpop(st)), spec_ctop(st)),
        ),
        _ => st.push(ConstFilter::NonConst),
    }
}

/// Run a node sequence over a constant stack, front to back.
pub open spec fn run_cnodes(nodes: Seq<FilterNode>, st: Seq<ConstFilter>) -> Seq<ConstFilter>
    decreases nodes.len(),
{
    if nodes.len() == 0 {
        st
    } else {
        run_cnodes(nodes.drop_first(), apply_cnode(nodes[0], st))
    }
}

/// What constant a node sequence folds to, if any.
pub open spec fn spec_eval_const(nodes: Seq<FilterNode>) -> ConstFilter {
    spec_ctop(run_cnodes(nodes, Seq::empty()))
}

/// A constant-stack entry agrees with a value-stack entry when the constant,
/// if it is one, is that value.
pub open spec fn compat(c: ConstFilter, b: bool) -> bool {
    match c {
        ConstFilter::True => b,
        ConstFilter::False => !b,
        ConstFilter::NonConst => true,
    }
}

/// Pointwise agreement of a constant stack with a value stack.
pub open spec fn stacks_compat(cs: Seq<ConstFilter>, bs: Seq<bool>) -> bool {
    cs.len() == bs.len() && forall|i: int| 0 <= i < cs.len() ==> compat(cs[i], bs[i])
}

/// Constant folding tracks evaluation: running the same nodes keeps the two
/// stacks in agreement.
proof fn lemma_run_compat(
    nodes: Seq<FilterNode>,
    ti: TaggedInterval,
    now: u64,
    cs: Seq<ConstFilter>,
    bs: Seq<bool>,
)
    requires
        stacks_compat(cs, bs),
    ensures
        stacks_compat(run_cnodes(nodes, cs), run_nodes(nodes, ti, now, bs)),
    decreases nodes.len(),
{
    if nodes.len() > 0 {
        let node = nodes[0];
        let cs1 = apply_cnode(node, cs);
        let bs1 = apply_node(node, ti, now, bs);
        assert(stacks_compat(cs1, bs1)) by {
            assert(compat(spec_ctop(cs), spec_top(bs)));
            assert(stacks_compat(spec_cpop(cs), spec_pop(bs)));
            if node is And || node is Or {
                assert(compat(spec_ctop(spec_cpop(cs)), spec_top(spec_pop(bs))));
                assert(stacks_compat(spec_cpop(spec_cpop(cs)), spec_pop(spec_pop(bs))));
            }
        }
        lemma_run_compat(nodes.drop_first(), ti, now, cs1, bs1);
    }
}

/// Soundness of constant folding: a sequence that folds to `True` evaluates
/// to true on every interval at every instant, and one that folds to `False`
/// evaluates to false on every interval at every instant.
pub proof fn lemma_eval_const_sound(nodes: Seq<FilterNode>)
    ensures
        spec_eval_const(nodes) is True ==> forall|ti: TaggedInterval, now: u64|
            spec_eval(nodes, ti, now),
        spec_eval_const(nodes) is False ==> forall|ti: TaggedInterval, now: u64|
            !spec_eval(nodes, ti, now),
{
    assert forall|ti: TaggedInterval, now: u64|
        compat(spec_eval_const(nodes), spec_eval(nodes, ti, now)) by {
        lemma_run_compat(nodes, ti, now, Seq::empty(), Seq::empty());
        let cs = run_cnodes(nodes, Seq::empty());
        let bs = run_nodes(nodes, ti, now, Seq::empty());
        if cs.len() > 0 {
            assert(compat(cs[cs.len() - 1], bs[bs.len() - 1]));
        }
    }
}

/// A filter for tagged intervals.
///
/// This is a boolean expression evaluated on tagged intervals. If it
/// evaluates to true, the interval passes the filter. Every filter the
/// public constructors produce is well-formed (`wf`).
#[derive(Debug, Clone, Hash)]
pub struct Filter {
    // Reverse-Polish-notation representation of the filter expression
    nodes: Vec<FilterNode>,
}

impl View for Filter {
    type V = Seq<FilterNode>;

    closed spec fn view(&self) -> Seq<FilterNode> {
        self.nodes@
    }
}

/// Pop a value from the boolean stack, reading an exhausted stack as false.
fn pop_or_false(stack: &mut Vec<bool>) -> (r: bool)
    ensures
        r == spec_top(old(stack)@),
        final(stack)@ == spec_pop(old(stack)@),
{
    match stack.pop() {
        Some(b) => b,
        None => false,
    }
}

impl Filter {
    /// The filter's postfix node sequence is one complete expression.
    pub open spec fn wf(&self) -> bool {
        wf_nodes(self@)
    }

    /// Evaluate this filter on the given interval at instant `now` (`now`
    /// only matters for duration tests on open intervals).
    pub fn eval(&self, ti: &TaggedInterval, now: u64) -> (r: bool)
        requires
            ti.interval.wf(),
            now <= MAX_TIME,
        ensures
            r == spec_eval(self@, *ti, now),
    {
        let mut stack: Vec<bool> = Vec::new();
        let n = self.nodes.len();
        let mut i: usize = 0;
        while i < n
            invariant
                ti.interval.wf(),
                now <= MAX_TIME,
                n == self@.len(),
                i <= n,
                stack@ == run_nodes(self@.take(i as int), *ti, now, Seq::empty()),
            decreases n - i,
        {
            let ghost st0 = stack@;
            let node = self.nodes[i];
            match node {
                FilterNode::True => stack.push(true),
                FilterNode::False => stack.push(false),
                FilterNode::HasTag(t) => stack.push(ti.tag == t),
                FilterNode::IsClosed => stack.push(ti.interval.duration.is_some()),
                FilterNode::StartedBefore(t) => stack.push(ti.interval.start <= t),
                FilterNode::StartedBeforeStrict(t) => stack.push(ti.interval.start < t),
                FilterNode::EndedBefore(t) => {
                    let v = match ti.interval.duration {
                        Some(d) => ti.interval.start + d <= t,
                        None => false,
                    };
                    stack.push(v);
                },
                FilterNode::EndedBeforeStrict(t) => {
                    let v = match ti.interval.duration {
                        Some(d) => ti.interval.start + d < t,
                        None => false,
                    };
                    stack.push(v);
                },
                FilterNode::ShorterThan(d) => {
                    let dur = ti.interval.duration_at(now);
                    stack.push(dur <= d);
                },
                FilterNode::ShorterThanStrict(d) => {
                    let dur = ti.interval.duration_at(now);
                    stack.push(dur < d);
                },
                FilterNode::Not => {
                    let b = pop_or_false(&mut stack);
                    stack.push(!b);
                },
                FilterNode::And => {
                    let b2 = pop_or_false(&mut stack);
                    let b1 = pop_or_false(&mut stack);
                    stack.push(b1 && b2);
                },
                FilterNode::Or => {
                    let b2 = pop_or_false(&mut stack);
                    let b1 = pop_or_false(&mut stack);
                    stack.push(b1 || b2);
                },
            }
            proof {
                assert(stack@ == apply_node(node, *ti, now, st0));
                assert(self@.take(i + 1 as int) =~= self@.take(i as int) + seq![node]);
                lemma_run_concat(self@.take(i as int), seq![node], *ti, now, Seq::empty());
                lemma_run_single(node, *ti, now, st0);
            }
            i += 1;
        }
        proof {
            assert(self@.take(n as int) =~= self@);
        }
        if stack.len() > 0 {
            stack[stack.len() - 1]
        } else {
            false
        }
    }
}

/// Pop a value from the constant stack, reading an exhausted stack as
/// `False`.
fn pop_or_cfalse(stack: &mut Vec<ConstFilter>) -> (r: ConstFilter)
    ensures
        r == spec_ctop(old(stack)@),
        final(stack)@ == spec_cpop(old(stack)@),
{
    match stack.pop() {
        Some(c) => c,
        None => ConstFilter::False,
    }
}

impl Filter {
    /// Evaluate this filter as a constant boolean value.
    ///
    /// If this filter evaluates to a constant value regardless of the
    /// interval upon which it is evaluated, this will return that value. If
    /// the filter depends upon the particular interval, this will return
    /// `ConstFilter::NonConst`.
    pub fn eval_const(&self) -> (r: ConstFilter)
        ensures
            r == spec_eval_const(self@),
    {
        let mut stack: Vec<ConstFilter> = Vec::new();
        let n = self.nodes.len();
        let mut i: usize = 0;
        while i < n
            invariant
                n == self@.len(),
                i <= n,
                stack@ == run_cnodes(self@.take(i as int), Seq::empty()),
            decreases n - i,
        {
            let ghost st0 = stack@;
            let node = self.nodes[i];
            match node {
                FilterNode::True => stack.push(ConstFilter::True),
                FilterNode::False => stack.push(ConstFilter::False),
                FilterNode::Not => {
                    let c = pop_or_cfalse(&mut stack);
                    let v = match c {
                        ConstFilter::False => ConstFilter::True,
                        ConstFilter::True => ConstFilter::False,
                        ConstFilter::NonConst => ConstFilter::NonConst,
                    };
                    stack.push(v);
                },
                FilterNode::And => {
                    let c2 = pop_or_cfalse(&mut stack);
                    let c1 = pop_or_cfalse(&mut stack);
                    let v = match (c1, c2) {
                        (ConstFilter::False, _) => ConstFilter::False,
                        (_, ConstFilter::False) => ConstFilter::False,
                        (ConstFilter::True, rhs) => rhs,
                        (lhs, ConstFilter::True) => lhs,
                        (_, _) => ConstFilter::NonConst,
                    };
                    stack.push(v);
                },
                FilterNode::Or => {
                    let c2 = pop_or_cfalse(&mut stack);
                    let c1 = pop_or_cfalse(&mut stack);
                    let v = match (c1, c2) {
                        (ConstFilter::False, rhs) => rhs,
                        (lhs, ConstFilter::False) => lhs,
                        (ConstFilter::True, _) => ConstFilter::True,
                        (_, ConstFilter::True) => ConstFilter::True,
                        (_, _) => ConstFilter::NonConst,
                    };
                    stack.push(v);
                },
                _ => stack.push(ConstFilter::NonConst),
            }
            proof {
                assert(stack@ == apply_cnode(node, st0));
                assert(self@.take(i + 1 as int) =~= self@.take(i as int) + seq![node]);
                lemma_crun_concat(self@.take(i as int), seq![node], Seq::empty());
                lemma_crun_single(node, st0);
            }
            i += 1;
        }
        proof {
            assert(self@.take(n as int) =~= self@);
        }
        if stack.len() > 0 {
            stack[stack.len() - 1]
        } else {
            ConstFilter::False
        }
    }

    /// Does this filter always evaluate to true?
    pub fn evals_true(&self) -> (r: bool)
        ensures
            r == (spec_eval_const(self@) is True),
    {
        match self.eval_const() {
            ConstFilter::True => true,
            _ => false,
        }
    }

    /// Does this filter always evaluate to false?
    pub fn evals_false(&self) -> (r: bool)
        ensures
            r == (spec_eval_const(self@) is False),
    {
        match self.eval_const() {
            ConstFilter::False => true,
            _ => false,
        }
    }

    /// Does this filter's value depend on the interval it is evaluated upon?
    pub fn evals_nonconst(&self) -> (r: bool)
        ensures
            r == (spec_eval_const(self@) is NonConst),
    {
        match self.eval_const() {
            ConstFilter::NonConst => true,
            _ => false,
        }
    }
}

/// Running a concatenation over the constant stack runs the halves in order.
proof fn lemma_crun_concat(a: Seq<FilterNode>, b: Seq<FilterNode>, st: Seq<ConstFilter>)
    ensures
        run_cnodes(a + b, st) == run_cnodes(b, run_cnodes(a, st)),
    decreases a.len(),
{
    if a.len() == 0 {
        assert(a + b =~= b);
    } else {
        assert((a + b)[0] == a[0]);
        assert((a + b).drop_first() =~= a.drop_first() + b);
        lemma_crun_concat(a.drop_first(), b, apply_cnode(a[0], st));
    }
}

/// One node runs as one application of `apply_cnode`.
proof fn lemma_crun_single(node: FilterNode, st: Seq<ConstFilter>)
    ensures
        run_cnodes(seq![node], st) == apply_cnode(node, st),
{
    let rest = seq![node].drop_first();
    assert(rest =~= Seq::<FilterNode>::empty());
    assert(run_cnodes(rest, apply_cnode(node, st)) == apply_cnode(node, st));
}

impl Filter {
    /// Is this filter exactly the single given terminal node?
    fn is_single(&self, node: FilterNode) -> (r: bool)
        ensures
            r == (self@ =~= seq![node]),
    {
        if self.nodes.len() == 1 {
            self.nodes[0] == node
        } else {
            false
        }
    }

    /// Create a filter that evaluates to true if this filter evaluates to
    /// false.
    ///
    /// A constant filter is replaced by the opposite constant; otherwise one
    /// negation node is appended.
    pub fn inverted(self) -> (r: Filter)
        requires
            self.wf(),
        ensures
            r.wf(),
            forall|ti: TaggedInterval, now: u64| #[trigger] spec_eval(r@, ti, now)
                == !spec_eval(self@, ti, now),
    {
        let ghost a = self@;
        if self.is_single(FilterNode::True) {
            let r = filter_false();
            proof {
                assert forall|ti: TaggedInterval, now: u64| #[trigger] spec_eval(r@, ti, now)
                    == !spec_eval(a, ti, now) by {
                    lemma_single_node(FilterNode::True, ti, now);
                    lemma_single_node(FilterNode::False, ti, now);
                }
            }
            r
        } else if self.is_single(FilterNode::False) {
            let r = filter_true();
            proof {
                assert forall|ti: TaggedInterval, now: u64| #[trigger] spec_eval(r@, ti, now)
                    == !spec_eval(a, ti, now) by {
                    lemma_single_node(FilterNode::True, ti, now);
                    lemma_single_node(FilterNode::False, ti, now);
                }
            }
            r
        } else {
            let mut nodes = self.nodes;
            nodes.push(FilterNode::Not);
            let r = Filter { nodes };
            proof {
                assert(r@ =~= a + seq![FilterNode::Not]);
                assert forall|ti: TaggedInterval, now: u64| #[trigger] spec_eval(r@, ti, now)
                    == !spec_eval(a, ti, now) by {
                    lemma_notop(a, ti, now);
                }
                lemma_notop(a, arbitrary(), arbitrary());
            }
            r
        }
    }

    /// Create a filter that evaluates to true if both this and the given
    /// filter evaluate to true.
    ///
    /// A constant operand is absorbed immediately (`X AND True = X`,
    /// `X AND False = False`), so constant filters never grow the
    /// expression.
    pub fn and(self, other: Filter) -> (r: Filter)
        requires
            self.wf(),
            other.wf(),
        ensures
            r.wf(),
            forall|ti: TaggedInterval, now: u64| #[trigger] spec_eval(r@, ti, now) == (spec_eval(
                self@,
                ti,
                now,
            ) && spec_eval(other@, ti, now)),
    {
        let ghost a = self@;
        let ghost b = other@;
        if self.is_single(FilterNode::True) {
            proof {
                assert forall|ti: TaggedInterval, now: u64| #[trigger] spec_eval(b, ti, now)
                    == (spec_eval(a, ti, now) && spec_eval(b, ti, now)) by {
                    lemma_single_node(FilterNode::True, ti, now);
                }
            }
            other
        } else if other.is_single(FilterNode::True) {
            proof {
                assert forall|ti: TaggedInterval, now: u64| #[trigger] spec_eval(a, ti, now)
                    == (spec_eval(a, ti, now) && spec_eval(b, ti, now)) by {
                    lemma_single_node(FilterNode::True, ti, now);
                }
            }
            self
        } else if self.is_single(FilterNode::False) {
            proof {
                assert forall|ti: TaggedInterval, now: u64| #[trigger] spec_eval(a, ti, now)
                    == (spec_eval(a, ti, now) && spec_eval(b, ti, now)) by {
                    lemma_single_node(FilterNode::False, ti, now);
                }
            }
            self
        } else if other.is_single(FilterNode::False) {
            proof {
                assert forall|ti: TaggedInterval, now: u64| #[trigger] spec_eval(b, ti, now)
                    == (spec_eval(a, ti, now) && spec_eval(b, ti, now)) by {
                    lemma_single_node(FilterNode::False, ti, now);
                }
            }
            other
        } else {
            let mut nodes = self.nodes;
            let mut other_nodes = other.nodes;
            nodes.append(&mut other_nodes);
            nodes.push(FilterNode::And);
            let r = Filter { nodes };
            proof {
                assert(r@ =~= a + b + seq![FilterNode::And]);
                assert forall|ti: TaggedInterval, now: u64| #[trigger] spec_eval(r@, ti, now)
                    == (spec_eval(a, ti, now) && spec_eval(b, ti, now)) by {
                    lemma_binop(a, b, FilterNode::And, ti, now);
                }
                lemma_binop(a, b, FilterNode::And, arbitrary(), arbitrary());
            }
            r
        }
    }

    /// Create a filter that evaluates to true if either this or the given
    /// filter evaluate to true.
    ///
    /// A constant operand is absorbed immediately (`X OR False = X`,
    /// `X OR True = True`), so constant filters never grow the expression.
    pub fn or(self, other: Filter) -> (r: Filter)
        requires
            self.wf(),
            other.wf(),
        ensures
            r.wf(),
            forall|ti: TaggedInterval, now: u64| #[trigger] spec_eval(r@, ti, now) == (spec_eval(
                self@,
                ti,
                now,
            ) || spec_eval(other@, ti, now)),
    {
        let ghost a = self@;
        let ghost b = other@;
        if self.is_single(FilterNode::True) {
            proof {
                assert forall|ti: TaggedInterval, now: u64| #[trigger] spec_eval(a, ti, now)
                    == (spec_eval(a, ti, now) || spec_eval(b, ti, now)) by {
                    lemma_single_node(FilterNode::True, ti, now);
                }
            }
            self
        } else if other.is_single(FilterNode::True) {
            proof {
                assert forall|ti: TaggedInterval, now: u64| #[trigger] spec_eval(b, ti, now)
                    == (spec_eval(a, ti, now) || spec_eval(b, ti, now)) by {
                    lemma_single_node(FilterNode::True, ti, now);
                }
            }
            other
        } else if self.is_single(FilterNode::False) {
            proof {
                assert forall|ti: TaggedInterval, now: u64| #[trigger] spec_eval(b, ti, now)
                    == (spec_eval(a, ti, now) || spec_eval(b, ti, now)) by {
                    lemma_single_node(FilterNode::False, ti, now);
                }
            }
            other
        } else if other.is_single(FilterNode::False) {
            proof {
                assert forall|ti: TaggedInterval, now: u64| #[trigger] spec_eval(a, ti, now)
                    == (spec_eval(a, ti, now) || spec_eval(b, ti, now)) by {
                    lemma_single_node(FilterNode::False, ti, now);
                }
            }
            self
        } else {
            let mut nodes = self.nodes;
            let mut other_nodes = other.nodes;
            nodes.append(&mut other_nodes);
            nodes.push(FilterNode::Or);
            let r = Filter { nodes };
            proof {
                assert(r@ =~= a + b + seq![FilterNode::Or]);
                assert forall|ti: TaggedInterval, now: u64| #[trigger] spec_eval(r@, ti, now)
                    == (spec_eval(a, ti, now) || spec_eval(b, ti, now)) by {
                    lemma_binop(a, b, FilterNode::Or, ti, now);
                }
                lemma_binop(a, b, FilterNode::Or, arbitrary(), arbitrary());
            }
            r
        }
    }
}

/// Build the filter holding the single given terminal node.
fn single(node: FilterNode) -> (r: Filter)
    requires
        node_arity(node) == 0,
    ensures
        r@ == seq![node],
        r.wf(),
        forall|ti: TaggedInterval, now: u64| #[trigger] spec_eval(r@, ti, now) == node_matches(
            node,
            ti,
            now,
        ),
{
    let mut nodes: Vec<FilterNode> = Vec::new();
    nodes.push(node);
    let r = Filter { nodes };
    proof {
        assert(r@ =~= seq![node]);
        assert forall|ti: TaggedInterval, now: u64| #[trigger] spec_eval(r@, ti, now)
            == node_matches(node, ti, now) by {
            lemma_single_node(node, ti, now);
        }
        lemma_single_node(node, arbitrary(), arbitrary());
    }
    r
}

/// A filter that always evaluates to true.
pub fn filter_true() -> (r: Filter)
    ensures
        r@ == seq![FilterNode::True],
        r.wf(),
        forall|ti: TaggedInterval, now: u64| #[trigger] spec_eval(r@, ti, now),
{
    single(FilterNode::True)
}

/// A filter that always evaluates to false.
pub fn filter_false() -> (r: Filter)
    ensures
        r@ == seq![FilterNode::False],
        r.wf(),
        forall|ti: TaggedInterval, now: u64| !#[trigger] spec_eval(r@, ti, now),
{
    single(FilterNode::False)
}

/// A filter that passes if the interval has the given tag.
pub fn has_tag(tag: TagId) -> (r: Filter)
    ensures
        r@ == seq![FilterNode::HasTag(tag)],
        r.wf(),
        forall|ti: TaggedInterval, now: u64| #[trigger] spec_eval(r@, ti, now) == (ti.tag == tag),
{
    single(FilterNode::HasTag(tag))
}

/// A filter that passes if the interval is closed.
pub fn is_closed() -> (r: Filter)
    ensures
        r@ == seq![FilterNode::IsClosed],
        r.wf(),
        forall|ti: TaggedInterval, now: u64| #[trigger] spec_eval(r@, ti, now) == (
        ti.interval.duration is Some),
{
    single(FilterNode::IsClosed)
}

/// A filter that passes if the interval is open.
pub fn is_open() -> (r: Filter)
    ensures
        r.wf(),
        forall|ti: TaggedInterval, now: u64| #[trigger] spec_eval(r@, ti, now) == (
        ti.interval.duration is None),
{
    is_closed().inverted()
}

/// A filter that passes if the interval's start time is no later than the
/// given time.
pub fn started_before(time: u64) -> (r: Filter)
    ensures
        r@ == seq![FilterNode::StartedBefore(time)],
        r.wf(),
        forall|ti: TaggedInterval, now: u64| #[trigger] spec_eval(r@, ti, now) == (
        ti.interval.start <= time),
{
    single(FilterNode::StartedBefore(time))
}

/// A filter that passes if the interval's start time is _strictly_ before
/// the given time.
pub fn started_before_strict(time: u64) -> (r: Filter)
    ensures
        r@ == seq![FilterNode::StartedBeforeStrict(time)],
        r.wf(),
        forall|ti: TaggedInterval, now: u64| #[trigger] spec_eval(r@, ti, now) == (
        ti.interval.start < time),
{
    single(FilterNode::StartedBeforeStrict(time))
}

/// A filter that passes if the interval is closed with an end time no later
/// than the given time.
pub fn ended_before(time: u64) -> (r: Filter)
    ensures
        r@ == seq![FilterNode::EndedBefore(time)],
        r.wf(),
        forall|ti: TaggedInterval, now: u64| #[trigger] spec_eval(r@, ti, now) == (
        ti.interval.duration is Some && ti.interval.spec_end() <= time),
{
    single(FilterNode::EndedBefore(time))
}

/// A filter that passes if the interval is closed with an end time
/// _strictly_ before the given time.
pub fn ended_before_strict(time: u64) -> (r: Filter)
    ensures
        r@ == seq![FilterNode::EndedBeforeStrict(time)],
        r.wf(),
        forall|ti: TaggedInterval, now: u64| #[trigger] spec_eval(r@, ti, now) == (
        ti.interval.duration is Some && ti.interval.spec_end() < time),
{
    single(FilterNode::EndedBeforeStrict(time))
}

/// A filter that passes if the interval's duration is at most the given
/// duration.
pub fn shorter_than(duration: u64) -> (r: Filter)
    ensures
        r@ == seq![FilterNode::ShorterThan(duration)],
        r.wf(),
        forall|ti: TaggedInterval, now: u64| #[trigger] spec_eval(r@, ti, now) == (spec_duration_at(
            ti.interval,
            now,
        ) <= duration),
{
    single(FilterNode::ShorterThan(duration))
}

/// A filter that passes if the interval's duration is strictly shorter than
/// the given duration.
pub fn shorter_than_strict(duration: u64) -> (r: Filter)
    ensures
        r@ == seq![FilterNode::ShorterThanStrict(duration)],
        r.wf(),
        forall|ti: TaggedInterval, now: u64| #[trigger] spec_eval(r@, ti, now) == (spec_duration_at(
            ti.interval,
            now,
        ) < duration),
{
    single(FilterNode::ShorterThanStrict(duration))
}

/// A filter that passes if the interval started at or after the given time.
pub fn started_after(time: u64) -> (r: Filter)
    ensures
        r.wf(),
        forall|ti: TaggedInterval, now: u64| #[trigger] spec_eval(r@, ti, now) == (
        ti.interval.start >= time),
{
    started_before_strict(time).inverted()
}

/// A filter that passes if the interval started strictly after the given
/// time.
pub fn started_after_strict(time: u64) -> (r: Filter)
    ensures
        r.wf(),
        forall|ti: TaggedInterval, now: u64| #[trigger] spec_eval(r@, ti, now) == (
        ti.interval.start > time),
{
    started_before(time).inverted()
}

/// A filter that passes if the interval is closed with an end time strictly
/// after the given time. An interval that ends exactly at the given time
/// does not pass. Open intervals never pass.
pub fn ended_after(time: u64) -> (r: Filter)
    ensures
        r.wf(),
        forall|ti: TaggedInterval, now: u64| #[trigger] spec_eval(r@, ti, now) == (
        ti.interval.duration is Some && ti.interval.spec_end() > time),
{
    is_closed().and(ended_before(time).inverted())
}

/// A filter that passes if the interval is closed with an end time at or
/// after the given time. An interval that ends exactly at the given time
/// passes. Open intervals never pass.
pub fn ended_after_strict(time: u64) -> (r: Filter)
    ensures
        r.wf(),
        forall|ti: TaggedInterval, now: u64| #[trigger] spec_eval(r@, ti, now) == (
        ti.interval.duration is Some && ti.interval.spec_end() >= time),
{
    is_closed().and(ended_before_strict(time).inverted())
}

/// A filter that passes if the interval's duration is strictly above the
/// given duration.
pub fn longer_than(duration: u64) -> (r: Filter)
    ensures
        r.wf(),
        forall|ti: TaggedInterval, now: u64| #[trigger] spec_eval(r@, ti, now) == (spec_duration_at(
            ti.interval,
            now,
        ) > duration),
{
    shorter_than(duration).inverted()
}

/// A filter that passes if the interval's duration is at or above the given
/// duration.
pub fn longer_than_strict(duration: u64) -> (r: Filter)
    ensures
        r.wf(),
        forall|ti: TaggedInterval, now: u64| #[trigger] spec_eval(r@, ti, now) == (spec_duration_at(
            ti.interval,
            now,
        ) >= duration),
{
    shorter_than_strict(duration).inverted()
}

/// Every filter in the sequence passes the interval.
pub open spec fn all_match(filters: Seq<Filter>, ti: TaggedInterval, now: u64) -> bool {
    forall|k: int| 0 <= k < filters.len() ==> spec_eval(#[trigger] filters[k]@, ti, now)
}

/// Some filter in the sequence passes the interval.
pub open spec fn any_match(filters: Seq<Filter>, ti: TaggedInterval, now: u64) -> bool {
    exists|k: int| 0 <= k < filters.len() && spec_eval(#[trigger] filters[k]@, ti, now)
}

/// Create a filter that evaluates to true if all of the given filters
/// evaluate to true. With no filters at all it matches every interval (the
/// identity for AND).
pub fn and_all(filters: Vec<Filter>) -> (r: Filter)
    requires
        forall|k: int| 0 <= k < filters@.len() ==> (#[trigger] filters@[k]).wf(),
    ensures
        r.wf(),
        forall|ti: TaggedInterval, now: u64| #[trigger] spec_eval(r@, ti, now) == all_match(
            filters@,
            ti,
            now,
        ),
        filters@.len() == 0 ==> forall|ti: TaggedInterval, now: u64| #[trigger] spec_eval(
            r@,
            ti,
            now,
        ),
{
    let ghost orig = filters@;
    let mut fs = filters;
    let mut acc = filter_true();
    proof {
        assert(orig.take(orig.len() as int) =~= orig);
    }
    while fs.len() > 0
        invariant
            fs@.len() <= orig.len(),
            fs@ == orig.take(fs@.len() as int),
            acc.wf(),
            forall|k: int| 0 <= k < orig.len() ==> (#[trigger] orig[k]).wf(),
            forall|ti: TaggedInterval, now: u64| #[trigger] spec_eval(acc@, ti, now) == (forall|
                k: int,
            |
                fs@.len() <= k < orig.len() ==> spec_eval(#[trigger] orig[k]@, ti, now)),
        decreases fs.len(),
    {
        let ghost fs0 = fs@;
        let ghost acc0 = acc@;
        let f = fs.pop().unwrap();
        proof {
            let m0 = fs0.len() as int;
            assert(orig.take(m0)[m0 - 1] == orig[m0 - 1]);
            assert(f@ == orig[m0 - 1]@);
            assert(fs@ =~= orig.take(fs@.len() as int));
        }
        let ghost fv = f@;
        acc = f.and(acc);
        proof {
            let m = fs@.len() as int;
            assert forall|ti: TaggedInterval, now: u64| #[trigger] spec_eval(acc@, ti, now)
                == (forall|k: int| m <= k < orig.len() ==> spec_eval(
                #[trigger] orig[k]@,
                ti,
                now,
            )) by {
                assert(spec_eval(acc@, ti, now) == (spec_eval(fv, ti, now) && spec_eval(
                    acc0,
                    ti,
                    now,
                )));
                if spec_eval(acc@, ti, now) {
                    assert forall|k: int| m <= k < orig.len() implies spec_eval(
                        #[trigger] orig[k]@,
                        ti,
                        now,
                    ) by {
                        if k == m {
                            assert(orig[k]@ == fv);
                        }
                    }
                } else {
                    if !spec_eval(fv, ti, now) {
                        assert(orig[m]@ == fv);
                        assert(!spec_eval(orig[m]@, ti, now));
                    }
                }
            }
        }
    }
    proof {
        assert(fs@.len() == 0);
    }
    acc
}

/// Create a filter that evaluates to true if any of the given filters
/// evaluate to true. With no filters at all it matches no interval (the
/// identity for OR).
pub fn or_all(filters: Vec<Filter>) -> (r: Filter)
    requires
        forall|k: int| 0 <= k < filters@.len() ==> (#[trigger] filters@[k]).wf(),
    ensures
        r.wf(),
        forall|ti: TaggedInterval, now: u64| #[trigger] spec_eval(r@, ti, now) == any_match(
            filters@,
            ti,
            now,
        ),
        filters@.len() == 0 ==> forall|ti: TaggedInterval, now: u64| !#[trigger] spec_eval(
            r@,
            ti,
            now,
        ),
{
    let ghost orig = filters@;
    let mut fs = filters;
    let mut acc = filter_false();
    proof {
        assert(orig.take(orig.len() as int) =~= orig);
    }
    while fs.len() > 0
        invariant
            fs@.len() <= orig.len(),
            fs@ == orig.take(fs@.len() as int),
            acc.wf(),
            forall|k: int| 0 <= k < orig.len() ==> (#[trigger] orig[k]).wf(),
            forall|ti: TaggedInterval, now: u64| #[trigger] spec_eval(acc@, ti, now) == (exists|
                k: int,
            |
                fs@.len() <= k < orig.len() && spec_eval(#[trigger] orig[k]@, ti, now)),
        decreases fs.len(),
    {
        let ghost fs0 = fs@;
        let ghost acc0 = acc@;
        let f = fs.pop().unwrap();
        proof {
            let m0 = fs0.len() as int;
            assert(orig.take(m0)[m0 - 1] == orig[m0 - 1]);
            assert(f@ == orig[m0 - 1]@);
            assert(fs@ =~= orig.take(fs@.len() as int));
        }
        let ghost fv = f@;
        acc = f.or(acc);
        proof {
            let m = fs@.len() as int;
            assert forall|ti: TaggedInterval, now: u64| #[trigger] spec_eval(acc@, ti, now)
                == (exists|k: int| m <= k < orig.len() && spec_eval(
                #[trigger] orig[k]@,
                ti,
                now,
            )) by {
                assert(spec_eval(acc@, ti, now) == (spec_eval(fv, ti, now) || spec_eval(
                    acc0,
                    ti,
                    now,
                )));
                if spec_eval(acc@, ti, now) {
                    if spec_eval(fv, ti, now) {
                        assert(orig[m]@ == fv);
                        assert(m <= m < orig.len() && spec_eval(orig[m]@, ti, now));
                    }
                } else {
                    assert forall|k: int| m <= k < orig.len() implies !spec_eval(
                        #[trigger] orig[k]@,
                        ti,
                        now,
                    ) by {
                        if k == m {
                            assert(orig[k]@ == fv);
                        }
                    }
                }
            }
        }
    }
    proof {
        assert(fs@.len() == 0);
    }
    acc
}

impl PartialEq for Filter {
    /// Filters are equal exactly when their node sequences are: equality is
    /// structural, so "is this filter exactly the trivial always-true
    /// filter" is decidable.
    fn eq(&self, other: &Self) -> (r: bool) {
        let n = self.nodes.len();
        if n != other.nodes.len() {
            proof {
                assert(self@ != other@);
            }
            return false;
        }
        let mut i: usize = 0;
        while i < n
            invariant
                n == self@.len(),
                n == other@.len(),
                i <= n,
                forall|k: int| 0 <= k < i ==> self@[k] == other@[k],
            decreases n - i,
        {
            if self.nodes[i] != other.nodes[i] {
                proof {
                    assert(self@[i as int] != other@[i as int]);
                }
                return false;
            }
            i += 1;
        }
        proof {
            assert(self@ =~= other@);
        }
        true
    }
}

impl vstd::std_specs::cmp::PartialEqSpecImpl for Filter {
    open spec fn obeys_eq_spec() -> bool {
        true
    }

    open spec fn eq_spec(&self, other: &Self) -> bool {
        self@ == other@
    }
}

impl Eq for Filter {

}

/// Boundary semantics at an exact endpoint: an interval closed exactly at
/// time `t` fails the strict end test at `t` but passes the non-strict one;
/// an interval started exactly at `t` fails the strict start test at `t`
/// but passes the non-strict one.
pub proof fn lemma_closed_at_boundary(t: u64, ti: TaggedInterval, now: u64)
    requires
        ti.interval.duration is Some,
    ensures
        ti.interval.spec_end() == t ==> !spec_eval(
            seq![FilterNode::EndedBeforeStrict(t)],
            ti,
            now,
        ),
        ti.interval.spec_end() == t ==> spec_eval(seq![FilterNode::EndedBefore(t)], ti, now),
        ti.interval.start == t ==> !spec_eval(seq![FilterNode::StartedBeforeStrict(t)], ti, now),
        ti.interval.start == t ==> spec_eval(seq![FilterNode::StartedBefore(t)], ti, now),
{
    lemma_single_node(FilterNode::EndedBeforeStrict(t), ti, now);
    lemma_single_node(FilterNode::EndedBefore(t), ti, now);
    lemma_single_node(FilterNode::StartedBeforeStrict(t), ti, now);
    lemma_single_node(FilterNode::StartedBefore(t), ti, now);
}

} // verus!
