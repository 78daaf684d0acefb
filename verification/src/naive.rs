//! The straightforward per-number generator, used as the correctness
//! oracle for the optimized engine: one modulo test and one freshly
//! formatted number per line, no batching and no in-place counter.

use crate::model::{
    buzz_line, digit_byte, digits_of, fizz_line, fizzbuzz_line, line_of, number_line, output_upto,
    NEWLINE,
};
use vstd::arithmetic::div_mod::{lemma_basic_div, lemma_fundamental_div_mod, lemma_mod_bound};
use vstd::prelude::*;

verus! {

/// Append the decimal text of `i` to `w`.
fn push_digits(w: &mut Vec<u8>, i: u64)
    requires
        i >= 1,
    ensures
        final(w)@ == old(w)@ + digits_of(i as nat),
{
    let mut rest: u64 = i;
    let mut digits: Vec<u8> = Vec::new();
    proof {
        assert(digits_of(i as nat) + Seq::<u8>::empty() =~= digits_of(i as nat));
    }
    while rest > 0
        invariant
            rest >= 0,
            rest == 0 ==> digits@.len() >= 1,
            if rest > 0 {
                digits_of(i as nat) == digits_of(rest as nat) + digits@
            } else {
                digits_of(i as nat) == digits@
            },
        decreases rest,
    {
        let d: u8 = (rest % 10) as u8 + 48;
        let ghost rest_pre = rest as nat;
        let ghost digits_pre = digits@;
        digits.insert(0, d);
        rest = rest / 10;
        proof {
            lemma_fundamental_div_mod(rest_pre as int, 10);
            lemma_mod_bound(rest_pre as int, 10);
            assert(d == digit_byte(rest_pre % 10));
            if rest_pre < 10 {
                lemma_basic_div(rest_pre as int, 10);
                assert(rest_pre % 10 == rest_pre);
                assert(digits_of(rest_pre) =~= seq![d]);
                assert(digits_of(i as nat) =~= digits@);
            } else {
                assert(digits_of(rest_pre) == digits_of(rest_pre / 10).push(d));
                assert(digits_of(rest_pre) + digits_pre =~= digits_of(rest_pre / 10) + digits@);
            }
        }
    }
    let mut k: usize = 0;
    let n = digits.len();
    while k < n
        invariant
            k <= n,
            n == digits@.len(),
            digits@ == digits_of(i as nat),
            w@ == old(w)@ + digits@.subrange(0, k as int),
        decreases n - k,
    {
        let b = digits[k];
        w.push(b);
        proof {
            assert(digits@.subrange(0, k + 1) =~= digits@.subrange(0, k as int).push(b));
        }
        k = k + 1;
    }
    proof {
        assert(digits@.subrange(0, n as int) =~= digits@);
    }
}

/// Append the token owed for the integer `i` — `FizzBuzz`, `Fizz`,
/// `Buzz`, or its decimal text — and a newline to `w`.
pub fn push_line(w: &mut Vec<u8>, i: u64)
    requires
        i >= 1,
    ensures
        final(w)@ == old(w)@ + line_of(i as nat),
{
    let ghost w0 = w@;
    if i % 15 == 0 {
        w.push(70);
        w.push(105);
        w.push(122);
        w.push(122);
        w.push(66);
        w.push(117);
        w.push(122);
        w.push(122);
        w.push(NEWLINE);
        proof {
            assert(w@ =~= w0 + fizzbuzz_line());
        }
    } else if i % 3 == 0 {
        w.push(70);
        w.push(105);
        w.push(122);
        w.push(122);
        w.push(NEWLINE);
        proof {
            assert(w@ =~= w0 + fizz_line());
        }
    } else if i % 5 == 0 {
        w.push(66);
        w.push(117);
        w.push(122);
        w.push(122);
        w.push(NEWLINE);
        proof {
            assert(w@ =~= w0 + buzz_line());
        }
    } else {
        push_digits(w, i);
        w.push(NEWLINE);
        proof {
            assert(w@ =~= w0 + number_line(i as nat));
        }
    }
}

/// Generate the output for the integers `1..until` (the upper bound
/// excluded) into `w`. Always succeeds; the `Result` mirrors a sink that
/// cannot fail when the sink is a byte buffer.
pub fn naive_to_buf(w: &mut Vec<u8>, until: u64) -> (r: Result<(), ()>)
    ensures
        r is Ok,
        final(w)@ == old(w)@ + output_upto(if until == 0 {
            0nat
        } else {
            (until - 1) as nat
        }),
{
    proof {
        assert(output_upto(0nat) == Seq::<u8>::empty());
        assert(w@ + Seq::<u8>::empty() =~= w@);
    }
    let mut i: u64 = 1;
    while i < until
        invariant
            1 <= i,
            until >= 1 ==> i <= until,
            until == 0 ==> i == 1,
            w@ == old(w)@ + output_upto((i - 1) as nat),
        decreases until - i,
    {
        let ghost w_pre = w@;
        push_line(w, i);
        proof {
            assert(output_upto(i as nat) == output_upto((i - 1) as nat) + line_of(i as nat));
            vstd::seq_lib::lemma_concat_associative(
                old(w)@,
                output_upto((i - 1) as nat),
                line_of(i as nat),
            );
        }
        i = i + 1;
    }
    Ok(())
}

} // verus!
