//! The session state machine: it accumulates the value being typed and the
//! token history of the current expression, and consumes one input event at
//! a time.

use vstd::prelude::*;

use crate::decimal::dec_str;
use crate::decimal::i64_to_decimal;
use crate::eval::Tokens;
use crate::eval::eval_expr;
use crate::eval::eval_expr_ok;
use crate::eval::fits_i64;
use crate::eval::lemma_pf_prefix;
use crate::eval::lemma_pf_push;
use crate::eval::pf_op_ok;
use crate::eval::pf_run;
use crate::eval::pf_vals_ok;
use crate::eval::pf_wf;
use crate::eval::shunting_yard;
use crate::eval::tdiv;
use crate::eval::tok_is_num;
use crate::eval::tok_is_op;
use crate::eval::wf_expr;

verus! {

/// The magnitude cap on digit entry: once the accumulator exceeds ten nines,
/// further digits are dropped.
pub open spec fn digit_cap() -> int {
    9_999_999_999
}

/// The effect of one digit event on the accumulator: shift and add the digit
/// unless the accumulator is over the cap or the result would not fit in an
/// `i64`; a dropped digit leaves the accumulator unchanged.
pub open spec fn digit_step(a: int, d: int) -> int {
    if a <= digit_cap() && fits_i64(a * 10) && fits_i64(a * 10 + d) {
        a * 10 + d
    } else {
        a
    }
}

/// The effect of a negate event: sign toggled, except that the one value
/// without a 64-bit negation keeps itself.
pub open spec fn negate_val(a: int) -> int {
    if a == i64::MIN as int {
        a
    } else {
        -a
    }
}

/// The base a digit event extends: a result left by an evaluation is not
/// extended — digit entry starts afresh from zero — while a value being
/// typed is.
pub open spec fn digit_base(c: Calculator) -> int {
    if c.just_evaluated() {
        0
    } else {
        c.acc() as int
    }
}

/// One discrete user action, as delivered by the interface.
pub enum Events {
    Add,
    Subtract,
    Multiply,
    Divide,
    Negate,
    Number(i64),
    Eq,
    Backspace,
    Reset,
    Idle,
}

/// The session: the token history of the expression being built, and the
/// value currently being typed.
pub struct Calculator {
    ops: Vec<Tokens>,
    accumulator: i64,
    evaluated: bool,
}

impl Calculator {
    /// The token history of the current expression.
    pub closed spec fn history(self) -> Seq<Tokens> {
        self.ops@
    }

    /// The value currently being typed or edited.
    pub closed spec fn acc(self) -> i64 {
        self.accumulator
    }

    /// Whether the accumulator holds the result of an evaluation that no
    /// later event has touched: the next digit then starts a fresh number.
    pub closed spec fn just_evaluated(self) -> bool {
        self.evaluated
    }

    /// The history alternates operands and operators and never ends with a
    /// dangling operand: `[Number, Op, Number, Op, ...]`.
    pub open spec fn wf(self) -> bool {
        &&& self.history().len() % 2 == 0
        &&& forall|j: int|
            0 <= j < self.history().len() ==> if j % 2 == 0 {
                tok_is_num(#[trigger] self.history()[j])
            } else {
                tok_is_op(self.history()[j])
            }
    }

    /// The decimal rendering of the accumulator: the sole externally
    /// observable state.
    pub fn display(&self) -> (r: String)
        ensures
            r@ == dec_str(self.acc() as int),
    {
        i64_to_decimal(self.accumulator)
    }

    /// Reduce the current token history to a single value: reorder it into
    /// postfix, then evaluate with a value stack. Returns the value exactly
    /// when every intermediate result fits in an `i64` and no division by
    /// zero occurs.
    #[verifier::loop_isolation(false)]
    fn calculate(&self) -> (r: Option<i64>)
        requires
            wf_expr(self.history()),
        ensures
            r is Some <==> eval_expr_ok(self.history()),
            r matches Some(v) ==> v as int == eval_expr(self.history()),
    {
        let postfix = shunting_yard(&self.ops);
        let ghost p = postfix@;
        let ghost e = Seq::<int>::empty();
        let mut stack: Vec<i64> = Vec::new();
        let n = postfix.len();
        let mut j: usize = 0;
        proof {
            assert(p.take(0) =~= Seq::<Tokens>::empty());
            assert(ints_of(stack@) =~= pf_run(p.take(0), e));
        }
        while j < n
            invariant
                j <= n,
                ints_of(stack@) == pf_run(p.take(j as int), e),
                pf_vals_ok(p.take(j as int), e),
            decreases n - j,
        {
            let ghost jj = j as int;
            let ghost st0 = pf_run(p.take(jj), e);
            let t = postfix[j];
            proof {
                assert(p.take(jj + 1) =~= p.take(jj).push(p[jj]));
                lemma_pf_push(p.take(jj), e, p[jj]);
                lemma_pf_prefix(p, e, jj + 1);
                assert(pf_wf(p.take(jj + 1), e));
                assert(tok_is_op(p[jj]) ==> st0.len() >= 2);
                assert(stack@.len() == st0.len());
            }
            match t {
                Tokens::Number(v) => {
                    stack.push(v);
                    proof {
                        assert(ints_of(stack@) =~= st0.push(v as int));
                    }
                },
                Tokens::Add => {
                    let ghost pre = stack@;
                    let y = stack.pop().unwrap();
                    let x = stack.pop().unwrap();
                    proof {
                        lemma_two_pops(st0, pre);
                        assert(stack@ =~= pre.drop_last().drop_last());
                        assert(y as int == st0[st0.len() - 1]);
                        assert(x as int == st0[st0.len() - 2]);
                        assert(ints_of(stack@) == st0.take(st0.len() - 2));
                    }
                    match x.checked_add(y) {
                        Some(v) => {
                            stack.push(v);
                            proof {
                                assert(ints_of(stack@) =~= st0.take(st0.len() - 2).push(
                                    v as int,
                                ));
                            }
                        },
                        None => {
                            proof {
                                assert(!pf_op_ok(p[jj], st0));
                                lemma_pf_prefix(p, e, jj + 1);
                            }
                            return None;
                        },
                    }
                },
                Tokens::Subtract => {
                    let ghost pre = stack@;
                    let y = stack.pop().unwrap();
                    let x = stack.pop().unwrap();
                    proof {
                        lemma_two_pops(st0, pre);
                        assert(stack@ =~= pre.drop_last().drop_last());
                        assert(y as int == st0[st0.len() - 1]);
                        assert(x as int == st0[st0.len() - 2]);
                        assert(ints_of(stack@) == st0.take(st0.len() - 2));
                    }
                    match x.checked_sub(y) {
                        Some(v) => {
                            stack.push(v);
                            proof {
                                assert(ints_of(stack@) =~= st0.take(st0.len() - 2).push(
                                    v as int,
                                ));
                            }
                        },
                        None => {
                            proof {
                                assert(!pf_op_ok(p[jj], st0));
                                lemma_pf_prefix(p, e, jj + 1);
                            }
                            return None;
                        },
                    }
                },
                Tokens::Multiply => {
                    let ghost pre = stack@;
                    let y = stack.pop().unwrap();
                    let x = stack.pop().unwrap();
                    proof {
                        lemma_two_pops(st0, pre);
                        assert(stack@ =~= pre.drop_last().drop_last());
                        assert(y as int == st0[st0.len() - 1]);
                        assert(x as int == st0[st0.len() - 2]);
                        assert(ints_of(stack@) == st0.take(st0.len() - 2));
                    }
                    match x.checked_mul(y) {
                        Some(v) => {
                            stack.push(v);
                            proof {
                                assert(ints_of(stack@) =~= st0.take(st0.len() - 2).push(
                                    v as int,
                                ));
                            }
                        },
                        None => {
                            proof {
                                assert(!pf_op_ok(p[jj], st0));
                                lemma_pf_prefix(p, e, jj + 1);
                            }
                            return None;
                        },
                    }
                },
                Tokens::Divide => {
                    let ghost pre = stack@;
                    let y = stack.pop().unwrap();
                    let x = stack.pop().unwrap();
                    proof {
                        lemma_two_pops(st0, pre);
                        assert(stack@ =~= pre.drop_last().drop_last());
                        assert(y as int == st0[st0.len() - 1]);
                        assert(x as int == st0[st0.len() - 2]);
                        assert(ints_of(stack@) == st0.take(st0.len() - 2));
                    }
                    match x.checked_div(y) {
                        Some(v) => {
                            stack.push(v);
                            proof {
                                assert(v as int == tdiv(x as int, y as int));
                                assert(ints_of(stack@) =~= st0.take(st0.len() - 2).push(
                                    v as int,
                                ));
                            }
                        },
                        None => {
                            proof {
                                assert(!pf_op_ok(p[jj], st0));
                                lemma_pf_prefix(p, e, jj + 1);
                            }
                            return None;
                        },
                    }
                },
            }
            j = j + 1;
        }
        proof {
            assert(p.take(n as int) =~= p);
            assert(ints_of(stack@) == seq![eval_expr(self.history())]);
            assert(stack@.len() == 1);
        }
        let ghost pre = stack@;
        let v = stack.pop().unwrap();
        proof {
            assert(v == pre[0]);
            assert(ints_of(pre)[0] == pre[0] as int);
        }
        Some(v)
    }

    /// Consume one input event, the sole mutator. Each event's exact effect
    /// on the history and the accumulator is stated below; an evaluation
    /// whose arithmetic cannot be carried out on 64-bit integers (division
    /// by zero or an intermediate out of range) leaves the state unchanged.
    /// A digit arriving right after a successful evaluation starts a fresh
    /// number rather than extending the result on display (`digit_base`);
    /// operators, negate and backspace continue from the result.
    pub fn dispatch(&mut self, event: Events)
        requires
            old(self).wf(),
        ensures
            final(self).wf(),
            match event {
                Events::Idle => final(self).history() == old(self).history() && final(self).acc()
                    == old(self).acc() && final(self).just_evaluated() == old(
                    self,
                ).just_evaluated(),
                Events::Eq => eval_dispatched(*old(self), *final(self)),
                Events::Reset => final(self).history() == Seq::<Tokens>::empty() && final(self).acc() == 0 && !final(self).just_evaluated(),
                Events::Negate => final(self).history() == old(self).history() && final(self).acc() as int == negate_val(old(self).acc() as int) && !final(self).just_evaluated(),
                Events::Number(num) => final(self).history() == old(self).history() && final(self).acc() as int == digit_step(digit_base(*old(self)), num as int) && !final(self).just_evaluated(),
                Events::Backspace => final(self).history() == old(self).history() && final(self).acc() as int == tdiv(old(self).acc() as int, 10) && !final(self).just_evaluated(),
                Events::Add => op_dispatched(*old(self), *final(self), Tokens::Add),
                Events::Subtract => op_dispatched(*old(self), *final(self), Tokens::Subtract),
                Events::Multiply => op_dispatched(*old(self), *final(self), Tokens::Multiply),
                Events::Divide => op_dispatched(*old(self), *final(self), Tokens::Divide),
            },
    {
        match event {
            Events::Idle => {},
            Events::Eq => {
                self.ops.push(Tokens::Number(self.accumulator));
                proof {
                    lemma_wf_push_number(old(self).history(), old(self).acc());
                }
                let r = self.calculate();
                match r {
                    Some(v) => {
                        self.accumulator = v;
                        self.ops.clear();
                        self.evaluated = true;
                    },
                    None => {
                        // the evaluation could not be carried out: undo the
                        // transient operand so the state is untouched
                        let _ = self.ops.pop();
                        proof {
                            assert(self.history() =~= old(self).history());
                        }
                    },
                }
            },
            Events::Reset => {
                self.ops.clear();
                self.accumulator = 0;
                self.evaluated = false;
            },
            Events::Negate => {
                self.evaluated = false;
                if self.accumulator == i64::MIN {
                } else {
                    self.accumulator = -self.accumulator;
                }
            },
            Events::Number(num) => {
                // a result left by an evaluation is not extended: digit
                // entry starts over from zero
                if self.evaluated {
                    self.evaluated = false;
                    self.accumulator = 0;
                }
                // digits only append below the cap; one whose result cannot
                // be held in an i64 is silently dropped as well
                if self.accumulator <= 9_999_999_999 {
                    match self.accumulator.checked_mul(10) {
                        Some(shifted) => {
                            match shifted.checked_add(num) {
                                Some(v) => {
                                    self.accumulator = v;
                                },
                                None => {},
                            }
                        },
                        None => {},
                    }
                }
            },
            Events::Backspace => {
                self.evaluated = false;
                proof {
                    lemma_tdiv10_fits(self.accumulator as int);
                }
                match self.accumulator.checked_div(10) {
                    Some(v) => {
                        self.accumulator = v;
                    },
                    None => {},
                }
            },
            Events::Add => {
                self.push_operator(Tokens::Add);
            },
            Events::Subtract => {
                self.push_operator(Tokens::Subtract);
            },
            Events::Multiply => {
                self.push_operator(Tokens::Multiply);
            },
            Events::Divide => {
                self.push_operator(Tokens::Divide);
            },
        }
    }

    /// Commit the accumulator to the history, followed by the operator, and
    /// start a fresh accumulator.
    fn push_operator(&mut self, t: Tokens)
        requires
            old(self).wf(),
            tok_is_op(t),
        ensures
            final(self).wf(),
            op_dispatched(*old(self), *final(self), t),
    {
        self.ops.push(Tokens::Number(self.accumulator));
        self.ops.push(t);
        self.accumulator = 0;
        self.evaluated = false;
        proof {
            lemma_wf_push_number(old(self).history(), old(self).acc());
            let h = old(self).history().push(Tokens::Number(old(self).acc()));
            assert(self.history() == h.push(t));
            assert forall|j: int| 0 <= j < self.history().len() implies (if j % 2 == 0 {
                tok_is_num(#[trigger] self.history()[j])
            } else {
                tok_is_op(self.history()[j])
            }) by {
                if j < h.len() {
                    assert(self.history()[j] == h[j]);
                }
            }
        }
    }
}

/// Committing the accumulator as an operand turns an even-length history
/// into a well-formed expression.
proof fn lemma_wf_push_number(h: Seq<Tokens>, a: i64)
    requires
        h.len() % 2 == 0,
        forall|j: int|
            0 <= j < h.len() ==> if j % 2 == 0 {
                tok_is_num(#[trigger] h[j])
            } else {
                tok_is_op(h[j])
            },
    ensures
        wf_expr(h.push(Tokens::Number(a))),
{
    let p = h.push(Tokens::Number(a));
    assert forall|j: int| 0 <= j < p.len() implies (if j % 2 == 0 {
        tok_is_num(#[trigger] p[j])
    } else {
        tok_is_op(p[j])
    }) by {
        if j < h.len() {
            assert(p[j] == h[j]);
        } else {
            assert(p[j] == Tokens::Number(a));
        }
    }
}

/// Dividing by ten keeps a 64-bit value within 64 bits.
proof fn lemma_tdiv10_fits(a: int)
    requires
        fits_i64(a),
    ensures
        fits_i64(tdiv(a, 10)),
{
    if a > 0 {
        assert(a == 10 * (a / 10) + a % 10);
        assert(0 <= a / 10 <= a);
    } else if a < 0 {
        let q = (a * -1) / 10;
        assert(a * -1 == 10 * q + (a * -1) % 10);
        assert(0 <= q <= a * -1);
        assert(tdiv(a, 10) == q * -1);
    }
}

/// The effect of an operator event: `Number(accumulator)` then the operator
/// are appended to the history and the accumulator restarts at zero.
pub open spec fn op_dispatched(pre: Calculator, post: Calculator, t: Tokens) -> bool {
    &&& post.history() == pre.history().push(Tokens::Number(pre.acc())).push(t)
    &&& post.acc() == 0
    &&& !post.just_evaluated()
}

/// The effect of an evaluate event: the accumulator is committed as the last
/// operand; if the evaluation succeeds its value becomes the accumulator and
/// the history is cleared, and otherwise the event is a no-op.
pub open spec fn eval_dispatched(pre: Calculator, post: Calculator) -> bool {
    let h = pre.history().push(Tokens::Number(pre.acc()));
    if eval_expr_ok(h) {
        &&& post.acc() as int == eval_expr(h)
        &&& post.history() == Seq::<Tokens>::empty()
        &&& post.just_evaluated()
    } else {
        &&& post.acc() == pre.acc()
        &&& post.history() == pre.history()
        &&& post.just_evaluated() == pre.just_evaluated()
    }
}

/// The integer values a machine-word stack holds.
spec fn ints_of(st: Seq<i64>) -> Seq<int> {
    st.map_values(|x: i64| x as int)
}

/// Popping the two topmost values of the stack uncovers the operands the
/// postfix machine pairs with the incoming operator.
proof fn lemma_two_pops(st0: Seq<int>, pre: Seq<i64>)
    requires
        ints_of(pre) == st0,
        st0.len() >= 2,
    ensures
        pre[pre.len() - 1] as int == st0[st0.len() - 1],
        pre[pre.len() - 2] as int == st0[st0.len() - 2],
        ints_of(pre.drop_last().drop_last()) == st0.take(st0.len() - 2),
{
    assert(pre.len() == st0.len());
    assert(ints_of(pre)[pre.len() - 1] == pre[pre.len() - 1] as int);
    assert(ints_of(pre)[pre.len() - 2] == pre[pre.len() - 2] as int);
    assert(ints_of(pre.drop_last().drop_last()) =~= st0.take(st0.len() - 2));
}

impl Default for Calculator {
    /// A fresh session: empty history, accumulator at zero.
    fn default() -> (c: Self)
        ensures
            c.wf(),
            c.history() == Seq::<Tokens>::empty(),
            c.acc() == 0,
            !c.just_evaluated(),
    {
        let c = Calculator { ops: Vec::new(), accumulator: 0, evaluated: false };
        proof {
            assert(c.history() =~= Seq::<Tokens>::empty());
        }
        c
    }
}

} // verus!
