//! The arithmetic of a counter with one wheel for each group of pieces:
//! the last wheel turns first, and a wheel that wraps carries into the one
//! before it.

use vstd::prelude::*;

verus! {

/// The remainder of the division that rounds towards zero.
pub open spec fn remainder(a: int, b: int) -> int {
    if a >= 0 {
        a % b
    } else {
        -((-a) % b)
    }
}

/// One wheel of the counter: its position and its number of positions.
pub struct Wheel {
    pub digit: int,
    pub radix: int,
}

/// Every wheel stands on one of its positions.
pub open spec fn wheels_ok(ws: Seq<Wheel>) -> bool {
    forall|i: int| 0 <= i < ws.len() ==> 0 <= (#[trigger] ws[i]).digit < ws[i].radix
}

/// The number of states of the counter: the product of the radices.
pub open spec fn span(ws: Seq<Wheel>) -> int
    decreases ws.len(),
{
    if ws.len() == 0 {
        1
    } else {
        span(ws.drop_last()) * ws.last().radix
    }
}

/// The number that the counter shows, the last wheel counting units.
pub open spec fn value(ws: Seq<Wheel>) -> int
    decreases ws.len(),
{
    if ws.len() == 0 {
        0
    } else {
        value(ws.drop_last()) * ws.last().radix + ws.last().digit
    }
}

/// The counter after one step, and whether the first wheel wrapped.
pub open spec fn advanced(ws: Seq<Wheel>) -> (Seq<Wheel>, bool)
    decreases ws.len(),
{
    if ws.len() == 0 {
        (ws, true)
    } else if ws.last().digit + 1 < ws.last().radix {
        (ws.drop_last().push(Wheel { digit: ws.last().digit + 1, radix: ws.last().radix }), false)
    } else {
        let before = advanced(ws.drop_last());
        (before.0.push(Wheel { digit: 0, radix: ws.last().radix }), before.1)
    }
}

/// The counter after `n` steps.
pub open spec fn advanced_by(ws: Seq<Wheel>, n: nat) -> Seq<Wheel>
    decreases n,
{
    if n == 0 {
        ws
    } else {
        advanced(advanced_by(ws, (n - 1) as nat)).0
    }
}

/// The counter shows a number below its number of states.
pub proof fn lemma_value_bounds(ws: Seq<Wheel>)
    requires
        wheels_ok(ws),
    ensures
        0 <= value(ws) < span(ws),
    decreases ws.len(),
{
    if ws.len() > 0 {
        let rest = ws.drop_last();
        let d = ws.last().digit;
        let r = ws.last().radix;
        lemma_value_bounds(rest);
        assert(0 <= value(rest) * r + d < span(rest) * r) by (nonlinear_arith)
            requires
                0 <= value(rest) < span(rest),
                0 <= d < r,
        ;
    }
}

/// A counter that shows zero has every wheel on its first position.
pub proof fn lemma_value_zero(ws: Seq<Wheel>)
    requires
        wheels_ok(ws),
        value(ws) == 0,
    ensures
        forall|i: int| 0 <= i < ws.len() ==> (#[trigger] ws[i]).digit == 0,
    decreases ws.len(),
{
    if ws.len() > 0 {
        let rest = ws.drop_last();
        let d = ws.last().digit;
        let r = ws.last().radix;
        assert(0 <= ws[ws.len() - 1].digit < r);
        lemma_value_bounds(rest);
        assert(value(rest) == 0 && d == 0) by (nonlinear_arith)
            requires
                value(rest) * r + d == 0,
                value(rest) >= 0,
                0 <= d < r,
        ;
        lemma_value_zero(rest);
        assert forall|i: int| 0 <= i < ws.len() implies (#[trigger] ws[i]).digit == 0 by {
            if i < ws.len() - 1 {
                assert(rest[i] == ws[i]);
            }
        }
    }
}

/// A step keeps the wheels and their radices, adds one to the number shown,
/// and wraps to zero, with a carry, exactly from the last state.
pub proof fn lemma_advanced(ws: Seq<Wheel>)
    requires
        wheels_ok(ws),
    ensures
        wheels_ok(advanced(ws).0),
        advanced(ws).0.len() == ws.len(),
        forall|i: int| 0 <= i < ws.len() ==> (#[trigger] advanced(ws).0[i]).radix == ws[i].radix,
        span(advanced(ws).0) == span(ws),
        advanced(ws).1 <==> value(ws) + 1 == span(ws),
        value(advanced(ws).0) == if value(ws) + 1 == span(ws) {
            0
        } else {
            value(ws) + 1
        },
    decreases ws.len(),
{
    if ws.len() > 0 {
        let rest = ws.drop_last();
        let d = ws.last().digit;
        let r = ws.last().radix;
        lemma_value_bounds(rest);
        lemma_value_bounds(ws);
        let next = advanced(ws).0;
        if d + 1 < r {
            assert(next.drop_last() =~= rest);
            assert(value(rest) * r + d + 1 < span(rest) * r) by (nonlinear_arith)
                requires
                    0 <= value(rest) < span(rest),
                    0 <= d + 1 < r,
            ;
        } else {
            lemma_advanced(rest);
            assert(next.drop_last() =~= advanced(rest).0);
            assert(value(rest) * r + d + 1 == (value(rest) + 1) * r) by (nonlinear_arith)
                requires
                    d + 1 == r,
            ;
            if value(rest) + 1 == span(rest) {
                assert(value(advanced(rest).0) * r + 0 == 0) by (nonlinear_arith)
                    requires
                        value(advanced(rest).0) == 0,
                ;
            } else {
                assert((value(rest) + 1) * r < span(rest) * r) by (nonlinear_arith)
                    requires
                        0 <= value(rest) + 1 < span(rest),
                        0 < r,
                ;
            }
        }
    }
}

/// Steps keep the wheels and their radices.
pub proof fn lemma_advanced_by(ws: Seq<Wheel>, n: nat)
    requires
        wheels_ok(ws),
    ensures
        wheels_ok(advanced_by(ws, n)),
        advanced_by(ws, n).len() == ws.len(),
        forall|i: int|
            0 <= i < ws.len() ==> (#[trigger] advanced_by(ws, n)[i]).radix == ws[i].radix,
        span(advanced_by(ws, n)) == span(ws),
    decreases n,
{
    if n > 0 {
        lemma_advanced_by(ws, (n - 1) as nat);
        lemma_advanced(advanced_by(ws, (n - 1) as nat));
    }
}

/// From its first state the counter goes through all its states in order:
/// after `n` steps, with `n` below the number of states, it shows `n`, and
/// it is the step out of the last state that carries and shows zero again.
pub proof fn lemma_counts(ws: Seq<Wheel>, n: nat)
    requires
        wheels_ok(ws),
        value(ws) == 0,
        n < span(ws),
    ensures
        wheels_ok(advanced_by(ws, n)),
        span(advanced_by(ws, n)) == span(ws),
        value(advanced_by(ws, n)) == n,
        advanced(advanced_by(ws, n)).1 <==> n + 1 == span(ws),
        n + 1 == span(ws) ==> value(advanced_by(ws, n + 1)) == 0,
    decreases n,
{
    if n > 0 {
        lemma_counts(ws, (n - 1) as nat);
        lemma_advanced(advanced_by(ws, (n - 1) as nat));
    }
    lemma_advanced(advanced_by(ws, n));
}

} // verus!
