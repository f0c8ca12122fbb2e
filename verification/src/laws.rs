//! General properties of the session state machine, stated over the same
//! spec functions that its contracts use.

use vstd::prelude::*;

use crate::calculator::digit_step;
use crate::calculator::negate_val;
use crate::decimal::dec_str;
use crate::decimal::digit_char;
use crate::eval::fits_i64;

verus! {

/// Negation is an involution: two consecutive negate events restore the
/// accumulator, for every 64-bit value, including the one whose negation
/// does not fit.
pub proof fn lemma_negate_involution(a: int)
    requires
        fits_i64(a),
    ensures
        negate_val(negate_val(a)) == a,
{
}

/// A reset leaves the display reading "0": zero renders as the one-character
/// string of the zero digit.
pub proof fn lemma_reset_display()
    ensures
        dec_str(0) == seq!['0'],
{
    assert(dec_str(0) =~= seq![digit_char(0)]);
}

/// After a successful evaluation the next digit event starts a fresh number:
/// the digit clause of `dispatch` then extends the zero base (not the
/// result on display), and a single digit lands exactly as itself.
pub proof fn lemma_fresh_digit_after_evaluate(d: int)
    requires
        0 <= d <= 9,
    ensures
        digit_step(0, d) == d,
{
}

/// Every sequence of digit events whose running value stays within the
/// magnitude cap leaves the accumulator holding the digits read as a base-10
/// numeral.
pub proof fn lemma_digit_entry(ds: Seq<int>)
    requires
        forall|i: int| 0 <= i < ds.len() ==> 0 <= #[trigger] ds[i] <= 9,
        forall|i: int| 0 <= i < ds.len() ==> base10_value(#[trigger] ds.take(i)) <= 9_999_999_999,
    ensures
        enter_digits(0, ds) == base10_value(ds),
        0 <= base10_value(ds) <= 99_999_999_999,
    decreases ds.len(),
{
    if ds.len() == 0 {
    } else {
        let dl = ds.drop_last();
        assert(forall|i: int| 0 <= i < dl.len() ==> dl.take(i) =~= ds.take(i));
        assert(forall|i: int| 0 <= i < dl.len() ==> 0 <= #[trigger] dl[i] <= 9);
        lemma_digit_entry(dl);
        assert(ds.take(ds.len() - 1) =~= dl);
        assert(base10_value(dl) <= 9_999_999_999);
        lemma_enter_push(0, dl, ds.last());
        assert(dl.push(ds.last()) =~= ds);
    }
}

/// The digits of a numeral, most significant first, read as a base-10 value.
pub open spec fn base10_value(ds: Seq<int>) -> int
    decreases ds.len(),
{
    if ds.len() == 0 {
        0
    } else {
        base10_value(ds.drop_last()) * 10 + ds.last()
    }
}

/// The accumulator after dispatching a sequence of digit events.
pub open spec fn enter_digits(a: int, ds: Seq<int>) -> int
    decreases ds.len(),
{
    if ds.len() == 0 {
        a
    } else {
        enter_digits(digit_step(a, ds.first()), ds.drop_first())
    }
}

proof fn lemma_enter_push(a: int, ds: Seq<int>, d: int)
    ensures
        enter_digits(a, ds.push(d)) == digit_step(enter_digits(a, ds), d),
    decreases ds.len(),
{
    if ds.len() == 0 {
        assert(ds.push(d).first() == d);
        assert(ds.push(d).drop_first() =~= Seq::<int>::empty());
        assert(enter_digits(a, ds.push(d)) == enter_digits(digit_step(a, d), Seq::<int>::empty()));
    } else {
        assert(ds.push(d).first() == ds.first());
        assert(ds.push(d).drop_first() =~= ds.drop_first().push(d));
        lemma_enter_push(digit_step(a, ds.first()), ds.drop_first(), d);
    }
}

} // verus!
