//! The decimal notation of amounts: micro-units written as `integral.fraction`.

use vstd::prelude::*;

use crate::text::{chars_of, find_char, index_of, lemma_index_of, nat_text, parse_int, parse_int_range, push_char, push_nat_text, push_zero_padded, zero_padded};

verus! {

/// Ten to the power `k`.
pub open spec fn pow10(k: nat) -> nat
    decreases k,
{
    if k == 0 {
        1
    } else {
        10 * pow10((k - 1) as nat)
    }
}

pub open spec fn abs(a: int) -> int {
    if a < 0 {
        -a
    } else {
        a
    }
}

pub open spec fn signum(a: int) -> int {
    if a < 0 {
        -1
    } else if a == 0 {
        0
    } else {
        1
    }
}

/// The pieces of `integral.fraction` notation, as `s.split('.')` and
/// `i64::from_str` take it apart: the value of the integral part, and the
/// value of the fractional part scaled to millionths (`".5"` counts
/// 500000). The fractional part keeps its own sign, if it has one.
///
/// There is no value when a part does not parse as an integer, when the
/// fractional part has more than six characters, or when there are more than
/// two parts.
pub open spec fn amount_parts(s: Seq<char>) -> Option<(int, int)> {
    match index_of(s, '.') {
        None => match parse_int(s) {
            Some(i) => Some((i, 0)),
            None => None,
        },
        Some(d) => {
            let rest = s.subrange(d + 1, s.len() as int);
            let second = match index_of(rest, '.') {
                None => rest,
                Some(e) => rest.subrange(0, e),
            };
            match parse_int(s.subrange(0, d)) {
                None => None,
                Some(i) => if second.len() > 6 {
                    None
                } else {
                    match parse_int(second) {
                        None => None,
                        Some(f) => if index_of(rest, '.') is Some {
                            None
                        } else {
                            Some((i, f * pow10((6 - second.len()) as nat)))
                        },
                    }
                },
            }
        },
    }
}

/// The amount `micros` millionths, rounded half away from zero, counted in
/// units of `10^-precision`.
pub open spec fn rounded_units(micros: int, precision: nat) -> nat {
    let step = pow10((6 - precision) as nat) as int;
    ((abs(micros) + step / 2) / step) as nat
}

/// The text of `micros` millionths rounded half away from zero to
/// `precision` decimals: a minus sign when the amount is negative, the
/// integral digits, then, unless `precision` is 0, a point and exactly
/// `precision` decimals.
pub open spec fn amount_text(micros: int, precision: nat) -> Seq<char> {
    let units = rounded_units(micros, precision);
    let scale = pow10(precision);
    (if micros < 0 {
        seq!['-']
    } else {
        Seq::<char>::empty()
    }) + nat_text(units / scale) + (if precision == 0 {
        Seq::<char>::empty()
    } else {
        seq!['.'] + zero_padded(nat_text(units % scale), precision)
    })
}

pub fn pow10_exec(k: usize) -> (r: u64)
    requires
        k <= 6,
    ensures
        r == pow10(k as nat),
        1 <= r <= 1000000,
{
    proof {
        reveal_with_fuel(pow10, 7);
    }
    if k == 0 {
        1
    } else if k == 1 {
        10
    } else if k == 2 {
        100
    } else if k == 3 {
        1000
    } else if k == 4 {
        10000
    } else if k == 5 {
        100000
    } else {
        1000000
    }
}

/// Takes `integral.fraction` notation apart: the exec side of `amount_parts`.
pub fn split_amount(s: &str) -> (res: Option<(i64, i128)>)
    ensures
        match res {
            Some((i, f)) => amount_parts(s@) == Some((i as int, f as int)) && -9223372036854775808
                * 1000000 <= f <= 9223372036854775807 * 1000000,
            None => amount_parts(s@) is None,
        },
{
    let cs = chars_of(s);
    let n = cs.len();
    assert(cs@.subrange(0, n as int) =~= s@);
    match find_char(&cs, 0, n, '.') {
        None => match parse_int_range(&cs, 0, n) {
            Some(i) => Some((i, 0)),
            None => None,
        },
        Some(d) => {
            let ghost rest = s@.subrange(d + 1, s@.len() as int);
            assert(cs@.subrange(d + 1, n as int) =~= rest);
            let e = find_char(&cs, d + 1, n, '.');
            let second_end = match e {
                None => n,
                Some(e) => d + 1 + e,
            };
            proof {
                lemma_index_of(rest, '.');
                assert(cs@.subrange(0, d as int) =~= s@.subrange(0, d as int));
                assert(cs@.subrange(d + 1, second_end as int) =~= match index_of(rest, '.') {
                    None => rest,
                    Some(e) => rest.subrange(0, e),
                });
            }
            let integral = match parse_int_range(&cs, 0, d) {
                None => return None,
                Some(i) => i,
            };
            if second_end - (d + 1) > 6 {
                return None;
            }
            let fraction = match parse_int_range(&cs, d + 1, second_end) {
                None => return None,
                Some(f) => f,
            };
            if e.is_some() {
                return None;
            }
            let scale = pow10_exec(6 - (second_end - (d + 1)));
            let f = fraction as i128;
            let sc = scale as i128;
            assert(-9223372036854775808 <= f <= 9223372036854775807);
            assert(-9223372036854775808 * 1000000 <= f * sc <= 9223372036854775807 * 1000000)
                by (nonlinear_arith)
                requires
                    -9223372036854775808 <= f <= 9223372036854775807,
                    1 <= sc <= 1000000,
            ;
            Some((integral, f * sc))
        },
    }
}

/// The text of an amount: see `amount_text`.
pub fn amount_text_exec(micros: i64, precision: usize) -> (r: String)
    requires
        precision <= 6,
    ensures
        r@ == amount_text(micros as int, precision as nat),
{
    let step = pow10_exec(6 - precision);
    let scale = pow10_exec(precision);
    proof {
        reveal_with_fuel(pow10, 7);
        assert(pow10(6) == 1000000);
    }
    let magnitude: u64 = if micros < 0 {
        if micros == i64::MIN {
            9223372036854775808u64
        } else {
            (-micros) as u64
        }
    } else {
        micros as u64
    };
    let units: u64 = (magnitude + step / 2) / step;
    let mut out = String::new();
    if micros < 0 {
        push_char(&mut out, '-');
    }
    push_nat_text(&mut out, units / scale);
    if precision > 0 {
        push_char(&mut out, '.');
        push_zero_padded(&mut out, units % scale, precision);
    }
    assert(out@ =~= amount_text(micros as int, precision as nat));
    out
}

} // verus!
