//! The expression evaluator: token streams, their precedence-aware meaning,
//! and the reordering pass that linearizes an infix stream into postfix order.

use vstd::prelude::*;

verus! {

/// One unit of an expression stream: an operand or a binary operator.
#[derive(Clone, Copy, Debug, PartialEq, Eq, Structural)]
pub enum Tokens {
    Add,
    Subtract,
    Multiply,
    Divide,
    Number(i64),
}

pub open spec fn tok_is_num(t: Tokens) -> bool {
    match t {
        Tokens::Number(_) => true,
        _ => false,
    }
}

pub open spec fn tok_num(t: Tokens) -> int {
    match t {
        Tokens::Number(n) => n as int,
        _ => 0,
    }
}

pub open spec fn tok_is_addsub(t: Tokens) -> bool {
    t == Tokens::Add || t == Tokens::Subtract
}

pub open spec fn tok_is_muldiv(t: Tokens) -> bool {
    t == Tokens::Multiply || t == Tokens::Divide
}

pub open spec fn tok_is_op(t: Tokens) -> bool {
    tok_is_addsub(t) || tok_is_muldiv(t)
}

/// A well-formed expression: numbers at even positions, operators at odd
/// positions, ending with a number.
pub open spec fn wf_expr(s: Seq<Tokens>) -> bool {
    &&& s.len() % 2 == 1
    &&& forall|j: int|
        0 <= j < s.len() ==> if j % 2 == 0 {
            tok_is_num(#[trigger] s[j])
        } else {
            tok_is_op(s[j])
        }
}

pub open spec fn fits_i64(x: int) -> bool {
    i64::MIN <= x <= i64::MAX
}

/// Division truncating toward zero, as machine division does.
pub open spec fn tdiv(x: int, d: int) -> int {
    if d == 0 {
        0
    } else if x == 0 {
        0
    } else if x > 0 && d > 0 {
        x / d
    } else if x < 0 && d < 0 {
        (x * -1) / (d * -1)
    } else if x < 0 {
        ((x * -1) / d) * -1
    } else {
        (x / (d * -1)) * -1
    }
}

/// The value of one binary operation.
pub open spec fn apply_op(op: Tokens, x: int, y: int) -> int {
    match op {
        Tokens::Add => x + y,
        Tokens::Subtract => x - y,
        Tokens::Multiply => x * y,
        Tokens::Divide => tdiv(x, y),
        Tokens::Number(_) => 0,
    }
}

/// Division requires a non-zero divisor; the other operators always apply.
pub open spec fn div_ok(op: Tokens, y: int) -> bool {
    op == Tokens::Divide ==> y != 0
}

/// The state of a left-to-right evaluation with two precedence levels:
/// `base` and `pending` hold the additive operation waiting for its right
/// operand, and `chain` is the value of the multiplicative run being built.
pub ghost struct MidEval {
    pub base: int,
    pub pending: Option<Tokens>,
    pub chain: int,
}

pub open spec fn init_frame(n: int) -> MidEval {
    MidEval { base: 0, pending: None, chain: n }
}

/// The value the frame denotes once the stream ends.
pub open spec fn frame_value(f: MidEval) -> int {
    match f.pending {
        None => f.chain,
        Some(op) => apply_op(op, f.base, f.chain),
    }
}

/// The pending additive operation applies without overflow.
pub open spec fn frame_ok(f: MidEval) -> bool {
    fits_i64(frame_value(f))
}

/// Consume one operator and its right operand: a multiplicative operator
/// extends the chain; an additive one commits the frame and starts over.
pub open spec fn step_frame(f: MidEval, op: Tokens, n: int) -> MidEval {
    if tok_is_muldiv(op) {
        MidEval { base: f.base, pending: f.pending, chain: apply_op(op, f.chain, n) }
    } else {
        MidEval { base: frame_value(f), pending: Some(op), chain: n }
    }
}

/// The arithmetic performed by one step succeeds on 64-bit integers.
pub open spec fn step_frame_ok(f: MidEval, op: Tokens, n: int) -> bool {
    if tok_is_muldiv(op) {
        div_ok(op, n) && fits_i64(apply_op(op, f.chain, n))
    } else {
        frame_ok(f)
    }
}

/// The evaluation frame after consuming the operator/operand pairs of
/// `s` up to (but not including) index `i`; `i` is expected odd.
pub open spec fn frame_at(s: Seq<Tokens>, i: int) -> MidEval
    decreases i,
{
    if i <= 1 {
        init_frame(tok_num(s[0]))
    } else {
        step_frame(frame_at(s, i - 2), s[i - 2], tok_num(s[i - 1]))
    }
}

/// All steps up to index `i` succeed on 64-bit integers.
pub open spec fn steps_ok_at(s: Seq<Tokens>, i: int) -> bool
    decreases i,
{
    if i <= 1 {
        true
    } else {
        steps_ok_at(s, i - 2) && step_frame_ok(frame_at(s, i - 2), s[i - 2], tok_num(s[i - 1]))
    }
}

/// The value of a well-formed expression: strict left-to-right evaluation,
/// with multiplication and division binding tighter than addition and
/// subtraction, and division truncating toward zero.
pub open spec fn eval_expr(s: Seq<Tokens>) -> int {
    frame_value(frame_at(s, s.len() as int))
}

/// The evaluation of `s` succeeds: every intermediate result fits in an
/// `i64` and no division by zero occurs.
pub open spec fn eval_expr_ok(s: Seq<Tokens>) -> bool {
    &&& wf_expr(s)
    &&& steps_ok_at(s, s.len() as int)
    &&& frame_ok(frame_at(s, s.len() as int))
}

// ---------------------------------------------------------------------------
// The postfix machine: the meaning of a reordered (postfix) token stream.
// ---------------------------------------------------------------------------

/// One step of the postfix value stack.
pub open spec fn pf_step(st: Seq<int>, t: Tokens) -> Seq<int> {
    match t {
        Tokens::Number(n) => st.push(n as int),
        _ => if st.len() >= 2 {
            st.take(st.len() - 2).push(apply_op(t, st[st.len() - 2], st[st.len() - 1]))
        } else {
            st
        },
    }
}

/// The value stack after running a postfix stream `s` from stack `st`.
pub open spec fn pf_run(s: Seq<Tokens>, st: Seq<int>) -> Seq<int>
    decreases s.len(),
{
    if s.len() == 0 {
        st
    } else {
        pf_run(s.drop_first(), pf_step(st, s.first()))
    }
}

/// An operator finds its two operands on the stack.
pub open spec fn pf_depth_ok(t: Tokens, st: Seq<int>) -> bool {
    tok_is_op(t) ==> st.len() >= 2
}

/// Every operator of the stream finds its two operands: the stream is
/// structurally valid postfix relative to the starting stack.
pub open spec fn pf_wf(s: Seq<Tokens>, st: Seq<int>) -> bool
    decreases s.len(),
{
    if s.len() == 0 {
        true
    } else {
        pf_depth_ok(s.first(), st) && pf_wf(s.drop_first(), pf_step(st, s.first()))
    }
}

/// The operation an operator performs on the current stack succeeds on
/// 64-bit integers.
pub open spec fn pf_op_ok(t: Tokens, st: Seq<int>) -> bool {
    tok_is_op(t) ==> st.len() >= 2 && div_ok(t, st[st.len() - 1]) && fits_i64(
        apply_op(t, st[st.len() - 2], st[st.len() - 1]),
    )
}

/// Every operation performed while running the stream succeeds.
pub open spec fn pf_vals_ok(s: Seq<Tokens>, st: Seq<int>) -> bool
    decreases s.len(),
{
    if s.len() == 0 {
        true
    } else {
        pf_op_ok(s.first(), st) && pf_vals_ok(s.drop_first(), pf_step(st, s.first()))
    }
}

/// Appending one token to a postfix stream runs the machine one more step.
pub proof fn lemma_pf_push(s: Seq<Tokens>, st: Seq<int>, t: Tokens)
    ensures
        pf_run(s.push(t), st) == pf_step(pf_run(s, st), t),
        pf_wf(s.push(t), st) == (pf_wf(s, st) && pf_depth_ok(t, pf_run(s, st))),
        pf_vals_ok(s.push(t), st) == (pf_vals_ok(s, st) && pf_op_ok(t, pf_run(s, st))),
    decreases s.len(),
{
    let e = s.push(t);
    if s.len() == 0 {
        assert(e.first() == t);
        assert(e.drop_first() =~= s);
        assert(pf_run(e, st) == pf_run(s, pf_step(st, t)));
        assert(pf_run(s, pf_step(st, t)) == pf_step(st, t));
        assert(pf_run(s, st) == st);
        assert(pf_wf(e, st) == (pf_depth_ok(t, st) && pf_wf(s, pf_step(st, t))));
        assert(pf_vals_ok(e, st) == (pf_op_ok(t, st) && pf_vals_ok(s, pf_step(st, t))));
    } else {
        assert(e.first() == s.first());
        assert(e.drop_first() =~= s.drop_first().push(t));
        lemma_pf_push(s.drop_first(), pf_step(st, s.first()), t);
        assert(pf_run(e, st) == pf_run(s.drop_first().push(t), pf_step(st, s.first())));
        assert(pf_run(s, st) == pf_run(s.drop_first(), pf_step(st, s.first())));
        assert(pf_wf(e, st) == (pf_depth_ok(s.first(), st) && pf_wf(
            s.drop_first().push(t),
            pf_step(st, s.first()),
        )));
        assert(pf_wf(s, st) == (pf_depth_ok(s.first(), st) && pf_wf(
            s.drop_first(),
            pf_step(st, s.first()),
        )));
        assert(pf_vals_ok(e, st) == (pf_op_ok(s.first(), st) && pf_vals_ok(
            s.drop_first().push(t),
            pf_step(st, s.first()),
        )));
        assert(pf_vals_ok(s, st) == (pf_op_ok(s.first(), st) && pf_vals_ok(
            s.drop_first(),
            pf_step(st, s.first()),
        )));
    }
}

// ---------------------------------------------------------------------------
// The reordering pass.
// ---------------------------------------------------------------------------

/// The state of the reordering scan: the output stream built so far and the
/// operator side-stack.
pub ghost struct SyState {
    pub out: Seq<Tokens>,
    pub stk: Seq<Tokens>,
}

/// Pop the multiplicative operators off the top of the side-stack: `out` is
/// what they emit to the output, topmost first, and `stk` is what remains.
pub open spec fn flush_muldiv(stk: Seq<Tokens>) -> SyState
    decreases stk.len(),
{
    if stk.len() > 0 && tok_is_muldiv(stk.last()) {
        let inner = flush_muldiv(stk.drop_last());
        SyState { out: seq![stk.last()] + inner.out, stk: inner.stk }
    } else {
        SyState { out: Seq::<Tokens>::empty(), stk }
    }
}

/// One operator/operand pair of the scan. The operator first moves every
/// stacked operator of equal or higher precedence to the output — all of
/// them for an additive operator, the multiplicative top for a
/// multiplicative one — and is then stacked; the operand goes straight to
/// the output.
pub open spec fn sy_step(st: SyState, op: Tokens, num: Tokens) -> SyState {
    if tok_is_addsub(op) {
        SyState { out: st.out + st.stk.reverse() + seq![num], stk: seq![op] }
    } else {
        let fl = flush_muldiv(st.stk);
        SyState { out: st.out + fl.out + seq![num], stk: fl.stk.push(op) }
    }
}

/// The scan state after the operator/operand pairs of `s` up to (but not
/// including) index `i`; `i` is expected odd.
pub open spec fn sy_state_at(s: Seq<Tokens>, i: int) -> SyState
    decreases i,
{
    if i <= 1 {
        SyState { out: seq![s[0]], stk: Seq::<Tokens>::empty() }
    } else {
        sy_step(sy_state_at(s, i - 2), s[i - 2], s[i - 1])
    }
}

/// The exact stream the reordering pass produces: the scan of the whole
/// input, with the remaining stacked operators flushed topmost first.
pub open spec fn reordered(s: Seq<Tokens>) -> Seq<Tokens> {
    let st = sy_state_at(s, s.len() as int);
    st.out + st.stk.reverse()
}

/// The operand tokens of a stream, in their original order.
pub open spec fn nums_of(s: Seq<Tokens>) -> Seq<Tokens> {
    s.filter(|t: Tokens| tok_is_num(t))
}

/// A stream of operators holds no operand.
proof fn lemma_nums_of_ops(q: Seq<Tokens>)
    requires
        forall|j: int| 0 <= j < q.len() ==> tok_is_op(#[trigger] q[j]),
    ensures
        nums_of(q) == Seq::<Tokens>::empty(),
    decreases q.len(),
{
    reveal_with_fuel(Seq::<Tokens>::filter, 2);
    if q.len() == 0 {
    } else {
        assert(tok_is_op(q[q.len() - 1]));
        assert forall|j: int| 0 <= j < q.drop_last().len() implies tok_is_op(
            #[trigger] q.drop_last()[j],
        ) by {
            assert(q.drop_last()[j] == q[j]);
        }
        lemma_nums_of_ops(q.drop_last());
    }
}

/// A lone operand filters to itself.
proof fn lemma_nums_of_single(t: Tokens)
    requires
        tok_is_num(t),
    ensures
        nums_of(seq![t]) == seq![t],
{
    reveal_with_fuel(Seq::<Tokens>::filter, 2);
    assert(seq![t].drop_last() =~= Seq::<Tokens>::empty());
    assert(nums_of(seq![t]) =~= seq![t]);
}

/// The side-stack flush moves tokens without losing or inventing any, and
/// moves operators only.
proof fn lemma_flush_content(stk: Seq<Tokens>)
    requires
        forall|j: int| 0 <= j < stk.len() ==> tok_is_op(#[trigger] stk[j]),
    ensures
        flush_muldiv(stk).out.to_multiset().add(flush_muldiv(stk).stk.to_multiset())
            == stk.to_multiset(),
        forall|j: int|
            0 <= j < flush_muldiv(stk).out.len() ==> tok_is_op(#[trigger] flush_muldiv(stk).out[j]),
        forall|j: int|
            0 <= j < flush_muldiv(stk).stk.len() ==> tok_is_op(#[trigger] flush_muldiv(stk).stk[j]),
    decreases stk.len(),
{
    broadcast use vstd::seq_lib::group_to_multiset_ensures;

    if stk.len() > 0 && tok_is_muldiv(stk.last()) {
        let dl = stk.drop_last();
        assert forall|j: int| 0 <= j < dl.len() implies tok_is_op(#[trigger] dl[j]) by {
            assert(dl[j] == stk[j]);
        }
        lemma_flush_content(dl);
        vstd::seq_lib::lemma_multiset_commutative(seq![stk.last()], flush_muldiv(dl).out);
        assert(Seq::<Tokens>::empty().push(stk.last()) =~= seq![stk.last()]);
        assert(dl.push(stk.last()) =~= stk);
        assert(flush_muldiv(stk).out.to_multiset().add(flush_muldiv(stk).stk.to_multiset())
            =~= stk.to_multiset());
        assert(tok_is_op(stk[stk.len() - 1]));
        assert forall|j: int| 0 <= j < flush_muldiv(stk).out.len() implies tok_is_op(
            #[trigger] flush_muldiv(stk).out[j],
        ) by {
            if j == 0 {
                assert(flush_muldiv(stk).out[0] == stk.last());
            } else {
                assert(flush_muldiv(stk).out[j] == flush_muldiv(dl).out[j - 1]);
            }
        }
    } else {
        assert(flush_muldiv(stk).out.to_multiset().add(flush_muldiv(stk).stk.to_multiset())
            =~= stk.to_multiset());
    }
}

/// Along the scan, output and side-stack together hold exactly the tokens
/// read so far; the output keeps the operands in order and the side-stack
/// holds operators only.
proof fn lemma_sy_state_content(s: Seq<Tokens>, i: int)
    requires
        wf_expr(s),
        1 <= i <= s.len(),
        i % 2 == 1,
    ensures
        sy_state_at(s, i).out.to_multiset().add(sy_state_at(s, i).stk.to_multiset())
            == s.take(i).to_multiset(),
        nums_of(sy_state_at(s, i).out) == nums_of(s.take(i)),
        forall|j: int|
            0 <= j < sy_state_at(s, i).stk.len() ==> tok_is_op(#[trigger] sy_state_at(s, i).stk[j]),
    decreases i,
{
    broadcast use vstd::seq_lib::group_to_multiset_ensures;
    broadcast use vstd::seq_lib::lemma_multiset_commutative;
    broadcast use vstd::seq_lib::group_seq_lib_default;

    if i == 1 {
        assert(s.take(1) =~= seq![s[0]]);
        assert(Seq::<Tokens>::empty().push(s[0]) =~= seq![s[0]]);
        assert(sy_state_at(s, 1).out.to_multiset().add(sy_state_at(s, 1).stk.to_multiset())
            =~= s.take(1).to_multiset());
        assert(tok_is_num(s[0]));
        lemma_nums_of_single(s[0]);
    } else {
        lemma_sy_state_content(s, i - 2);
        let st = sy_state_at(s, i - 2);
        let st2 = sy_state_at(s, i);
        let op = s[i - 2];
        let num = s[i - 1];
        assert(tok_is_op(op));
        assert(tok_is_num(num));
        assert(s.take(i) =~= s.take(i - 2) + seq![op] + seq![num]);
        lemma_nums_of_single(num);
        lemma_nums_of_ops(seq![op]);
        assert(nums_of(s.take(i)) == nums_of(s.take(i - 2)) + seq![num]);
        assert(Seq::<Tokens>::empty().push(op) =~= seq![op]);
        assert(Seq::<Tokens>::empty().push(num) =~= seq![num]);
        if tok_is_addsub(op) {
            // the whole side-stack is emitted before `op` is stacked
            assert(st2.out == st.out + st.stk.reverse() + seq![num]);
            assert(st2.stk == seq![op]);
            st.stk.lemma_reverse_to_multiset();
            assert(st2.out.to_multiset().add(st2.stk.to_multiset()) =~= s.take(i).to_multiset());
            assert forall|j: int| 0 <= j < st.stk.reverse().len() implies tok_is_op(
                #[trigger] st.stk.reverse()[j],
            ) by {
                assert(st.stk.reverse()[j] == st.stk[st.stk.len() - 1 - j]);
            }
            lemma_nums_of_ops(st.stk.reverse());
            assert(nums_of(st2.out) =~= nums_of(s.take(i)));
        } else {
            // only the multiplicative top run is emitted
            let fl = flush_muldiv(st.stk);
            lemma_flush_content(st.stk);
            assert(st2.out == st.out + fl.out + seq![num]);
            assert(st2.stk == fl.stk.push(op));
            assert(st2.out.to_multiset().add(st2.stk.to_multiset()) =~= s.take(i).to_multiset());
            lemma_nums_of_ops(fl.out);
            assert(nums_of(st2.out) =~= nums_of(s.take(i)));
            assert forall|j: int| 0 <= j < st2.stk.len() implies tok_is_op(
                #[trigger] st2.stk[j],
            ) by {
                if j < fl.stk.len() {
                    assert(st2.stk[j] == fl.stk[j]);
                } else {
                    assert(st2.stk[j] == op);
                }
            }
        }
    }
}

/// The reordering is a permutation of its input that keeps the operands in
/// their original relative order: the output holds exactly the input's
/// tokens, and its operand subsequence equals the input's.
pub proof fn lemma_reordered_permutes(s: Seq<Tokens>)
    requires
        wf_expr(s),
    ensures
        reordered(s).to_multiset() == s.to_multiset(),
        nums_of(reordered(s)) == nums_of(s),
{
    broadcast use vstd::seq_lib::group_to_multiset_ensures;
    broadcast use vstd::seq_lib::lemma_multiset_commutative;
    broadcast use vstd::seq_lib::group_seq_lib_default;

    let nn = s.len() as int;
    lemma_sy_state_content(s, nn);
    let st = sy_state_at(s, nn);
    assert(s.take(nn) =~= s);
    st.stk.lemma_reverse_to_multiset();
    assert(reordered(s).to_multiset() =~= s.to_multiset());
    assert forall|j: int| 0 <= j < st.stk.reverse().len() implies tok_is_op(
        #[trigger] st.stk.reverse()[j],
    ) by {
        assert(st.stk.reverse()[j] == st.stk[st.stk.len() - 1 - j]);
    }
    lemma_nums_of_ops(st.stk.reverse());
    assert(nums_of(reordered(s)) =~= nums_of(s));
}

/// The side-stack flush stops exactly under the topmost run of
/// multiplicative operators.
proof fn lemma_flush_muldiv(stk: Seq<Tokens>, k: int)
    requires
        0 <= k <= stk.len(),
        forall|j: int| k <= j < stk.len() ==> tok_is_muldiv(#[trigger] stk[j]),
        k > 0 ==> !tok_is_muldiv(stk[k - 1]),
    ensures
        flush_muldiv(stk).out == stk.skip(k).reverse(),
        flush_muldiv(stk).stk == stk.take(k),
    decreases stk.len(),
{
    if k == stk.len() {
        assert(stk.skip(k).reverse() =~= Seq::<Tokens>::empty());
        assert(stk.take(k) =~= stk);
        if stk.len() > 0 {
            assert(!tok_is_muldiv(stk.last()));
        }
    } else {
        assert(tok_is_muldiv(stk[stk.len() - 1]));
        let dl = stk.drop_last();
        assert(forall|j: int| k <= j < dl.len() ==> #[trigger] dl[j] == stk[j]);
        lemma_flush_muldiv(dl, k);
        assert(flush_muldiv(stk).out == seq![stk.last()] + dl.skip(k).reverse());
        assert(seq![stk.last()] + dl.skip(k).reverse() =~= stk.skip(k).reverse());
        assert(dl.take(k) =~= stk.take(k));
    }
}

fn is_muldiv_token(t: &Tokens) -> (b: bool)
    ensures
        b == tok_is_muldiv(*t),
{
    match t {
        Tokens::Multiply | Tokens::Divide => true,
        _ => false,
    }
}

/// Loop shape: no operator stacked; the output alone evaluates the prefix.
spec fn sy_case_empty(s: Seq<Tokens>, i: int, out: Seq<Tokens>, stk: Seq<Tokens>) -> bool {
    let f = frame_at(s, i);
    &&& stk.len() == 0
    &&& f.pending is None
    &&& fits_i64(f.chain)
    &&& pf_run(out, Seq::<int>::empty()) == seq![f.chain]
    &&& pf_vals_ok(out, Seq::<int>::empty()) == steps_ok_at(s, i)
}

/// Loop shape: one multiplicative operator stacked, its operands on top of
/// the output's value stack.
spec fn sy_case_mul(s: Seq<Tokens>, i: int, out: Seq<Tokens>, stk: Seq<Tokens>) -> bool {
    let f = frame_at(s, i);
    let fp = frame_at(s, i - 2);
    let ln = tok_num(s[i - 1]);
    &&& stk.len() == 1
    &&& tok_is_muldiv(stk[0])
    &&& stk[0] == s[i - 2]
    &&& i >= 3
    &&& f.pending is None
    &&& pf_run(out, Seq::<int>::empty()) == seq![fp.chain, ln]
    &&& (pf_vals_ok(out, Seq::<int>::empty()) && step_frame_ok(fp, s[i - 2], ln)) == steps_ok_at(
        s,
        i,
    )
}

/// Loop shape: one additive operator stacked, its operands on the output's
/// value stack.
spec fn sy_case_add(s: Seq<Tokens>, i: int, out: Seq<Tokens>, stk: Seq<Tokens>) -> bool {
    let f = frame_at(s, i);
    &&& stk.len() == 1
    &&& tok_is_addsub(stk[0])
    &&& f.pending == Some(stk[0])
    &&& pf_run(out, Seq::<int>::empty()) == seq![f.base, f.chain]
    &&& pf_vals_ok(out, Seq::<int>::empty()) == steps_ok_at(s, i)
}

/// Loop shape: an additive operator below a multiplicative one; three
/// operands on the output's value stack.
spec fn sy_case_addmul(s: Seq<Tokens>, i: int, out: Seq<Tokens>, stk: Seq<Tokens>) -> bool {
    let f = frame_at(s, i);
    let fp = frame_at(s, i - 2);
    let ln = tok_num(s[i - 1]);
    &&& stk.len() == 2
    &&& tok_is_addsub(stk[0])
    &&& f.pending == Some(stk[0])
    &&& tok_is_muldiv(stk[1])
    &&& stk[1] == s[i - 2]
    &&& i >= 3
    &&& pf_run(out, Seq::<int>::empty()) == seq![f.base, fp.chain, ln]
    &&& (pf_vals_ok(out, Seq::<int>::empty()) && step_frame_ok(fp, s[i - 2], ln)) == steps_ok_at(
        s,
        i,
    )
}

/// The operator stack holds at most an additive operator below a
/// multiplicative one, and the output is postfix for the committed part of
/// the prefix read so far.
spec fn sy_cases(s: Seq<Tokens>, i: int, out: Seq<Tokens>, stk: Seq<Tokens>) -> bool {
    ||| sy_case_empty(s, i, out, stk)
    ||| sy_case_mul(s, i, out, stk)
    ||| sy_case_add(s, i, out, stk)
    ||| sy_case_addmul(s, i, out, stk)
}

/// Validity and success of a postfix stream pass down to every prefix.
pub proof fn lemma_pf_prefix(s: Seq<Tokens>, st: Seq<int>, j: int)
    requires
        0 <= j <= s.len(),
    ensures
        pf_wf(s, st) ==> pf_wf(s.take(j), st),
        pf_vals_ok(s, st) ==> pf_vals_ok(s.take(j), st),
    decreases s.len() - j,
{
    if j == s.len() {
        assert(s.take(j) =~= s);
    } else {
        lemma_pf_prefix(s, st, j + 1);
        assert(s.take(j + 1) =~= s.take(j).push(s[j]));
        lemma_pf_push(s.take(j), st, s[j]);
    }
}

/// Precedence reorder (a restricted shunting yard): linearize an infix
/// stream into postfix order. A number goes straight to the output; an
/// operator first moves every stacked operator of equal or higher precedence
/// to the output, then is stacked itself; the stack is flushed at the end.
///
/// The contract pins the meaning of the output: it is structurally valid
/// postfix, its reduction yields exactly the expression's value, and its
/// arithmetic succeeds on 64-bit integers exactly when the expression's
/// left-to-right precedence-aware evaluation does.
#[verifier::loop_isolation(false)]
pub fn shunting_yard(tokens: &Vec<Tokens>) -> (out: Vec<Tokens>)
    requires
        wf_expr(tokens@),
    ensures
        out@ == reordered(tokens@),
        pf_wf(out@, Seq::<int>::empty()),
        pf_run(out@, Seq::<int>::empty()) == seq![eval_expr(tokens@)],
        pf_vals_ok(out@, Seq::<int>::empty()) == eval_expr_ok(tokens@),
{
    let ghost s = tokens@;
    let ghost e = Seq::<int>::empty();
    let n = tokens.len();
    let mut output_queue: Vec<Tokens> = Vec::new();
    let mut operator_stack: Vec<Tokens> = Vec::new();

    let first = tokens[0];
    output_queue.push(first);
    proof {
        assert(tok_is_num(s[0]));
        lemma_pf_push(Seq::<Tokens>::empty(), e, s[0]);
        assert(output_queue@ =~= Seq::<Tokens>::empty().push(s[0]));
        assert(pf_run(output_queue@, e) =~= seq![tok_num(s[0])]);
        assert(sy_case_empty(s, 1, output_queue@, operator_stack@));
        assert(output_queue@ == sy_state_at(s, 1).out);
        assert(operator_stack@ =~= sy_state_at(s, 1).stk);
    }
    let mut i: usize = 1;
    while i < n - 1
        invariant
            1 <= i <= n,
            i % 2 == 1,
            pf_wf(output_queue@, Seq::<int>::empty()),
            sy_cases(s, i as int, output_queue@, operator_stack@),
            output_queue@ == sy_state_at(s, i as int).out,
            operator_stack@ == sy_state_at(s, i as int).stk,
        decreases n - i,
    {
        let ghost ii = i as int;
        let op = tokens[i];
        let num = tokens[i + 1];
        let ghost f = frame_at(s, ii);
        let ghost nv = tok_num(s[ii + 1]);
        let ghost out0 = output_queue@;
        let ghost stk0 = operator_stack@;
        proof {
            assert(tok_is_op(s[ii]));
            assert(tok_is_num(s[ii + 1]));
            assert(frame_at(s, ii + 2) == step_frame(f, s[ii], nv));
            assert(steps_ok_at(s, ii + 2) == (steps_ok_at(s, ii) && step_frame_ok(f, s[ii], nv)));
        }
        match op {
            Tokens::Add | Tokens::Subtract => {
                // every stacked operator ranks at least as high: flush them all
                proof {
                    assert(operator_stack@ =~= stk0.take(operator_stack@.len() as int));
                    assert(stk0.skip(operator_stack@.len() as int).reverse() =~= Seq::<
                        Tokens,
                    >::empty());
                    assert(output_queue@ =~= out0 + stk0.skip(
                        operator_stack@.len() as int,
                    ).reverse());
                }
                while operator_stack.len() > 0
                    invariant
                        operator_stack@.len() <= stk0.len(),
                        operator_stack@ == stk0.take(operator_stack@.len() as int),
                        output_queue@ == out0 + stk0.skip(operator_stack@.len() as int).reverse(),
                    decreases operator_stack.len(),
                {
                    let ghost klen = operator_stack@.len() as int;
                    let top = operator_stack.pop().unwrap();
                    output_queue.push(top);
                    proof {
                        assert(top == stk0[klen - 1]);
                        assert(operator_stack@ =~= stk0.take(klen - 1));
                        assert(stk0.skip(klen - 1).reverse() =~= stk0.skip(klen).reverse().push(
                            stk0[klen - 1],
                        ));
                        assert(output_queue@ =~= out0 + stk0.skip(klen - 1).reverse());
                    }
                }
                operator_stack.push(op);
                proof {
                    assert(stk0.take(0) =~= Seq::<Tokens>::empty());
                    assert(operator_stack@ =~= seq![op]);
                    assert(stk0.skip(0) =~= stk0);
                    assert(output_queue@ == out0 + stk0.reverse());
                }
            },
            Tokens::Multiply | Tokens::Divide => {
                // flush only multiplicative operators: additive ones rank lower
                proof {
                    assert(operator_stack@ =~= stk0.take(operator_stack@.len() as int));
                    assert(stk0.skip(operator_stack@.len() as int).reverse() =~= Seq::<
                        Tokens,
                    >::empty());
                    assert(output_queue@ =~= out0 + stk0.skip(
                        operator_stack@.len() as int,
                    ).reverse());
                }
                while operator_stack.len() > 0 && is_muldiv_token(
                    &operator_stack[operator_stack.len() - 1],
                )
                    invariant
                        operator_stack@.len() <= stk0.len(),
                        operator_stack@ == stk0.take(operator_stack@.len() as int),
                        output_queue@ == out0 + stk0.skip(operator_stack@.len() as int).reverse(),
                        forall|j: int|
                            0 <= j < stk0.len() && !tok_is_muldiv(#[trigger] stk0[j]) ==> j
                                < operator_stack@.len(),
                    decreases operator_stack.len(),
                {
                    let ghost klen = operator_stack@.len() as int;
                    let top = operator_stack.pop().unwrap();
                    output_queue.push(top);
                    proof {
                        assert(top == stk0[klen - 1]);
                        assert(operator_stack@ =~= stk0.take(klen - 1));
                        assert(stk0.skip(klen - 1).reverse() =~= stk0.skip(klen).reverse().push(
                            stk0[klen - 1],
                        ));
                        assert(output_queue@ =~= out0 + stk0.skip(klen - 1).reverse());
                    }
                }
                proof {
                    let k = operator_stack@.len() as int;
                    assert(forall|j: int|
                        k <= j < stk0.len() ==> tok_is_muldiv(#[trigger] stk0[j]));
                    if k > 0 {
                        assert(operator_stack@[k - 1] == stk0[k - 1]);
                    }
                    lemma_flush_muldiv(stk0, k);
                    assert(flush_muldiv(stk0).stk == operator_stack@);
                    assert(flush_muldiv(stk0).out == stk0.skip(k).reverse());
                }
                operator_stack.push(op);
            },
            Tokens::Number(_) => {
                proof {
                    assert(false);
                }
            },
        }
        output_queue.push(num);
        proof {
            let b = steps_ok_at(s, ii);
            let f2 = frame_at(s, ii + 2);
            assert(op == s[ii]);
            assert(num == s[ii + 1]);
            if tok_is_addsub(op) {
                // the whole stack was flushed, then `op` was stacked
                assert(f2 == MidEval { base: frame_value(f), pending: Some(op), chain: nv });
                assert(step_frame_ok(f, op, nv) == frame_ok(f));
                assert(output_queue@ =~= out0 + stk0.reverse() + seq![num]);
                assert(sy_state_at(s, ii + 2) == sy_step(SyState { out: out0, stk: stk0 }, s[ii], s[ii + 1]));
                assert(output_queue@ == sy_state_at(s, ii + 2).out);
                assert(operator_stack@ == sy_state_at(s, ii + 2).stk);
                if stk0.len() == 0 {
                    assert(sy_case_empty(s, ii, out0, stk0));
                    assert(stk0.reverse() =~= Seq::<Tokens>::empty());
                    assert(output_queue@ =~= out0.push(num));
                    lemma_pf_push(out0, e, num);
                    assert(pf_run(output_queue@, e) =~= seq![f.chain, nv]);
                    assert(frame_value(f) == f.chain);
                    assert(pf_vals_ok(output_queue@, e) == b);
                    assert(b == (b && frame_ok(f)));
                    assert(sy_case_add(s, ii + 2, output_queue@, operator_stack@));
                } else if stk0.len() == 1 && tok_is_muldiv(stk0[0]) {
                    assert(sy_case_mul(s, ii, out0, stk0));
                    let fp = frame_at(s, ii - 2);
                    let ln = tok_num(s[ii - 1]);
                    let m = stk0[0];
                    assert(f == step_frame(fp, m, ln));
                    assert(f.chain == apply_op(m, fp.chain, ln));
                    assert(stk0.reverse() =~= seq![m]);
                    assert(out0 + stk0.reverse() =~= out0.push(m));
                    assert(output_queue@ =~= out0.push(m).push(num));
                    lemma_pf_push(out0, e, m);
                    assert(seq![fp.chain, ln].take(0) =~= Seq::<int>::empty());
                    assert(pf_run(out0.push(m), e) =~= seq![f.chain]);
                    assert(pf_op_ok(m, seq![fp.chain, ln]) == step_frame_ok(fp, m, ln));
                    lemma_pf_push(out0.push(m), e, num);
                    assert(pf_run(output_queue@, e) =~= seq![f.chain, nv]);
                    assert(frame_value(f) == f.chain);
                    assert(pf_vals_ok(output_queue@, e) == b);
                    assert(step_frame_ok(fp, m, ln) ==> fits_i64(f.chain));
                    assert(pf_vals_ok(output_queue@, e) == (b && frame_ok(f)));
                    assert(sy_case_add(s, ii + 2, output_queue@, operator_stack@));
                } else if stk0.len() == 1 {
                    assert(sy_case_add(s, ii, out0, stk0));
                    let a = stk0[0];
                    assert(f.pending == Some(a));
                    assert(stk0.reverse() =~= seq![a]);
                    assert(out0 + stk0.reverse() =~= out0.push(a));
                    assert(output_queue@ =~= out0.push(a).push(num));
                    lemma_pf_push(out0, e, a);
                    assert(seq![f.base, f.chain].take(0) =~= Seq::<int>::empty());
                    assert(pf_run(out0.push(a), e) =~= seq![apply_op(a, f.base, f.chain)]);
                    assert(apply_op(a, f.base, f.chain) == frame_value(f));
                    assert(a != Tokens::Divide);
                    assert(pf_op_ok(a, seq![f.base, f.chain]) == frame_ok(f));
                    lemma_pf_push(out0.push(a), e, num);
                    assert(pf_run(output_queue@, e) =~= seq![frame_value(f), nv]);
                    assert(pf_vals_ok(output_queue@, e) == (b && frame_ok(f)));
                    assert(sy_case_add(s, ii + 2, output_queue@, operator_stack@));
                } else {
                    assert(sy_case_addmul(s, ii, out0, stk0));
                    let fp = frame_at(s, ii - 2);
                    let ln = tok_num(s[ii - 1]);
                    let a = stk0[0];
                    let m = stk0[1];
                    assert(f == step_frame(fp, m, ln));
                    assert(f.chain == apply_op(m, fp.chain, ln));
                    assert(f.base == fp.base);
                    assert(f.pending == Some(a));
                    assert(stk0.reverse() =~= seq![m, a]);
                    assert(out0 + stk0.reverse() =~= out0.push(m).push(a));
                    assert(output_queue@ =~= out0.push(m).push(a).push(num));
                    lemma_pf_push(out0, e, m);
                    assert(seq![f.base, fp.chain, ln].take(1) =~= seq![f.base]);
                    assert(pf_run(out0.push(m), e) =~= seq![f.base, f.chain]);
                    assert(pf_op_ok(m, seq![f.base, fp.chain, ln]) == step_frame_ok(fp, m, ln));
                    lemma_pf_push(out0.push(m), e, a);
                    assert(seq![f.base, f.chain].take(0) =~= Seq::<int>::empty());
                    assert(pf_run(out0.push(m).push(a), e) =~= seq![apply_op(a, f.base, f.chain)]);
                    assert(apply_op(a, f.base, f.chain) == frame_value(f));
                    assert(a != Tokens::Divide);
                    assert(pf_op_ok(a, seq![f.base, f.chain]) == frame_ok(f));
                    lemma_pf_push(out0.push(m).push(a), e, num);
                    assert(pf_run(output_queue@, e) =~= seq![frame_value(f), nv]);
                    assert(pf_vals_ok(output_queue@, e) == (b && frame_ok(f)));
                    assert(sy_case_add(s, ii + 2, output_queue@, operator_stack@));
                }
            } else {
                // only a multiplicative top was flushed, then `op` was stacked
                assert(tok_is_muldiv(op));
                assert(f2 == MidEval { base: f.base, pending: f.pending, chain: apply_op(op, f.chain, nv) });
                assert(output_queue@ =~= out0 + flush_muldiv(stk0).out + seq![num]);
                assert(sy_state_at(s, ii + 2) == sy_step(SyState { out: out0, stk: stk0 }, s[ii], s[ii + 1]));
                assert(output_queue@ == sy_state_at(s, ii + 2).out);
                assert(operator_stack@ == sy_state_at(s, ii + 2).stk);
                if stk0.len() == 0 {
                    assert(sy_case_empty(s, ii, out0, stk0));
                    assert(operator_stack@ =~= stk0.take(0).push(op));
                    assert(operator_stack@ =~= seq![op]);
                    assert(stk0.skip(0).reverse() =~= Seq::<Tokens>::empty());
                    assert(output_queue@ =~= out0.push(num));
                    lemma_pf_push(out0, e, num);
                    assert(pf_run(output_queue@, e) =~= seq![f.chain, nv]);
                    assert(pf_vals_ok(output_queue@, e) == b);
                    assert(frame_at(s, ii + 2 - 2) == f);
                    assert(sy_case_mul(s, ii + 2, output_queue@, operator_stack@));
                } else if stk0.len() == 1 && tok_is_muldiv(stk0[0]) {
                    assert(sy_case_mul(s, ii, out0, stk0));
                    let fp = frame_at(s, ii - 2);
                    let ln = tok_num(s[ii - 1]);
                    let m = stk0[0];
                    assert(f == step_frame(fp, m, ln));
                    assert(f.chain == apply_op(m, fp.chain, ln));
                    // the stacked multiplicative operator was popped
                    assert(operator_stack@.len() == 1) by {
                        if operator_stack@.len() == 2 {
                            assert(operator_stack@[0] == stk0.take(1)[0]);
                            assert(false);
                        }
                    }
                    assert(operator_stack@ =~= stk0.take(0).push(op));
                    assert(operator_stack@ =~= seq![op]);
                    assert(stk0.skip(0).reverse() =~= seq![m]);
                    assert(output_queue@ =~= out0.push(m).push(num));
                    lemma_pf_push(out0, e, m);
                    assert(seq![fp.chain, ln].take(0) =~= Seq::<int>::empty());
                    assert(pf_run(out0.push(m), e) =~= seq![f.chain]);
                    assert(pf_op_ok(m, seq![fp.chain, ln]) == step_frame_ok(fp, m, ln));
                    lemma_pf_push(out0.push(m), e, num);
                    assert(pf_run(output_queue@, e) =~= seq![f.chain, nv]);
                    assert(pf_vals_ok(output_queue@, e) == b);
                    assert(frame_at(s, ii + 2 - 2) == f);
                    assert(sy_case_mul(s, ii + 2, output_queue@, operator_stack@));
                } else if stk0.len() == 1 {
                    assert(sy_case_add(s, ii, out0, stk0));
                    let a = stk0[0];
                    // an additive operator stays below the incoming one
                    assert(operator_stack@.len() == 2) by {
                        if operator_stack@.len() == 1 {
                            assert(!tok_is_muldiv(stk0[0]));
                            assert(false);
                        }
                    }
                    assert(operator_stack@ =~= stk0.take(1).push(op));
                    assert(operator_stack@ =~= seq![a, op]);
                    assert(stk0.skip(1).reverse() =~= Seq::<Tokens>::empty());
                    assert(output_queue@ =~= out0.push(num));
                    lemma_pf_push(out0, e, num);
                    assert(pf_run(output_queue@, e) =~= seq![f.base, f.chain, nv]);
                    assert(pf_vals_ok(output_queue@, e) == b);
                    assert(frame_at(s, ii + 2 - 2) == f);
                    assert(f2.pending == Some(a));
                    assert(sy_case_addmul(s, ii + 2, output_queue@, operator_stack@));
                } else {
                    assert(sy_case_addmul(s, ii, out0, stk0));
                    let fp = frame_at(s, ii - 2);
                    let ln = tok_num(s[ii - 1]);
                    let a = stk0[0];
                    let m = stk0[1];
                    assert(f == step_frame(fp, m, ln));
                    assert(f.chain == apply_op(m, fp.chain, ln));
                    assert(f.base == fp.base);
                    assert(operator_stack@.len() == 2) by {
                        if operator_stack@.len() == 1 {
                            assert(!tok_is_muldiv(stk0[0]));
                            assert(false);
                        }
                        if operator_stack@.len() == 3 {
                            assert(operator_stack@[1] == stk0.take(2)[1]);
                            assert(false);
                        }
                    }
                    assert(operator_stack@ =~= stk0.take(1).push(op));
                    assert(operator_stack@ =~= seq![a, op]);
                    assert(stk0.skip(1).reverse() =~= seq![m]);
                    assert(output_queue@ =~= out0.push(m).push(num));
                    lemma_pf_push(out0, e, m);
                    assert(seq![f.base, fp.chain, ln].take(1) =~= seq![f.base]);
                    assert(pf_run(out0.push(m), e) =~= seq![f.base, f.chain]);
                    assert(pf_op_ok(m, seq![f.base, fp.chain, ln]) == step_frame_ok(fp, m, ln));
                    lemma_pf_push(out0.push(m), e, num);
                    assert(pf_run(output_queue@, e) =~= seq![f.base, f.chain, nv]);
                    assert(pf_vals_ok(output_queue@, e) == b);
                    assert(frame_at(s, ii + 2 - 2) == f);
                    assert(f2.pending == Some(a));
                    assert(sy_case_addmul(s, ii + 2, output_queue@, operator_stack@));
                }
            }
        }
        i = i + 2;
    }
    proof {
        assert(s.len() % 2 == 1);
        assert(i as int == s.len()) by {
            if i as int != s.len() {
                assert(i as int == s.len() - 1);
                assert(i % 2 == 1);
                assert(false);
            }
        }
    }
    // the scan is done: flush the remaining stacked operators, innermost last
    let ghost out1 = output_queue@;
    let ghost stk1 = operator_stack@;
    proof {
        assert(operator_stack@ =~= stk1.take(operator_stack@.len() as int));
        assert(stk1.skip(operator_stack@.len() as int).reverse() =~= Seq::<Tokens>::empty());
        assert(output_queue@ =~= out1 + stk1.skip(operator_stack@.len() as int).reverse());
    }
    while operator_stack.len() > 0
        invariant
            operator_stack@.len() <= stk1.len(),
            operator_stack@ == stk1.take(operator_stack@.len() as int),
            output_queue@ == out1 + stk1.skip(operator_stack@.len() as int).reverse(),
        decreases operator_stack.len(),
    {
        let ghost klen = operator_stack@.len() as int;
        let top = operator_stack.pop().unwrap();
        output_queue.push(top);
        proof {
            assert(top == stk1[klen - 1]);
            assert(operator_stack@ =~= stk1.take(klen - 1));
            assert(stk1.skip(klen - 1).reverse() =~= stk1.skip(klen).reverse().push(
                stk1[klen - 1],
            ));
            assert(output_queue@ =~= out1 + stk1.skip(klen - 1).reverse());
        }
    }
    proof {
        let nn = s.len() as int;
        let b = steps_ok_at(s, nn);
        let f = frame_at(s, nn);
        assert(stk1.skip(0) =~= stk1);
        assert(output_queue@ == out1 + stk1.reverse());
        assert(eval_expr(s) == frame_value(f));
        if stk1.len() == 0 {
            assert(sy_case_empty(s, nn, out1, stk1));
            assert(stk1.reverse() =~= Seq::<Tokens>::empty());
            assert(output_queue@ =~= out1);
            assert(frame_value(f) == f.chain);
            assert(frame_ok(f));
            assert(pf_vals_ok(output_queue@, e) == eval_expr_ok(s));
        } else if stk1.len() == 1 && tok_is_muldiv(stk1[0]) {
            assert(sy_case_mul(s, nn, out1, stk1));
            let fp = frame_at(s, nn - 2);
            let ln = tok_num(s[nn - 1]);
            let m = stk1[0];
            assert(f == step_frame(fp, m, ln));
            assert(f.chain == apply_op(m, fp.chain, ln));
            assert(stk1.reverse() =~= seq![m]);
            assert(output_queue@ =~= out1.push(m));
            lemma_pf_push(out1, e, m);
            assert(seq![fp.chain, ln].take(0) =~= Seq::<int>::empty());
            assert(pf_run(output_queue@, e) =~= seq![f.chain]);
            assert(frame_value(f) == f.chain);
            assert(pf_op_ok(m, seq![fp.chain, ln]) == step_frame_ok(fp, m, ln));
            assert(step_frame_ok(fp, m, ln) ==> fits_i64(f.chain));
            assert(pf_vals_ok(output_queue@, e) == eval_expr_ok(s));
        } else if stk1.len() == 1 {
            assert(sy_case_add(s, nn, out1, stk1));
            let a = stk1[0];
            assert(f.pending == Some(a));
            assert(stk1.reverse() =~= seq![a]);
            assert(output_queue@ =~= out1.push(a));
            lemma_pf_push(out1, e, a);
            assert(seq![f.base, f.chain].take(0) =~= Seq::<int>::empty());
            assert(pf_run(output_queue@, e) =~= seq![apply_op(a, f.base, f.chain)]);
            assert(apply_op(a, f.base, f.chain) == frame_value(f));
            assert(a != Tokens::Divide);
            assert(pf_op_ok(a, seq![f.base, f.chain]) == frame_ok(f));
            assert(pf_vals_ok(output_queue@, e) == eval_expr_ok(s));
        } else {
            assert(sy_case_addmul(s, nn, out1, stk1));
            let fp = frame_at(s, nn - 2);
            let ln = tok_num(s[nn - 1]);
            let a = stk1[0];
            let m = stk1[1];
            assert(f == step_frame(fp, m, ln));
            assert(f.chain == apply_op(m, fp.chain, ln));
            assert(f.base == fp.base);
            assert(f.pending == Some(a));
            assert(stk1.reverse() =~= seq![m, a]);
            assert(out1 + stk1.reverse() =~= out1.push(m).push(a));
            assert(output_queue@ =~= out1.push(m).push(a));
            lemma_pf_push(out1, e, m);
            assert(seq![f.base, fp.chain, ln].take(1) =~= seq![f.base]);
            assert(pf_run(out1.push(m), e) =~= seq![f.base, f.chain]);
            assert(pf_op_ok(m, seq![f.base, fp.chain, ln]) == step_frame_ok(fp, m, ln));
            lemma_pf_push(out1.push(m), e, a);
            assert(seq![f.base, f.chain].take(0) =~= Seq::<int>::empty());
            assert(pf_run(output_queue@, e) =~= seq![apply_op(a, f.base, f.chain)]);
            assert(apply_op(a, f.base, f.chain) == frame_value(f));
            assert(a != Tokens::Divide);
            assert(pf_op_ok(a, seq![f.base, f.chain]) == frame_ok(f));
            assert(pf_vals_ok(output_queue@, e) == eval_expr_ok(s));
        }
        assert(pf_run(output_queue@, e) =~= seq![eval_expr(s)]);
        assert(out1 == sy_state_at(s, nn).out);
        assert(stk1 == sy_state_at(s, nn).stk);
        assert(output_queue@ =~= reordered(s));
    }
    output_queue
}

} // verus!
