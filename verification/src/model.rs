//! The mathematical model of the generated text.
//!
//! A number's text is `digits_of(n)`: its decimal ASCII digits with no
//! leading zeros. `val_of` reads a digit sequence back as a number, and the
//! lemmas here show the two are inverse on canonical digit sequences.
//! `line_of(n)` is the token the generator owes for `n` (a literal for
//! multiples of 3 and 5, the digits otherwise, newline-terminated), and
//! `output_upto(n)` concatenates the tokens for `1..=n`.

use vstd::arithmetic::div_mod::{
    lemma_fundamental_div_mod, lemma_fundamental_div_mod_converse, lemma_mod_mod,
    lemma_multiply_divide_lt, lemma_small_mod,
};
use vstd::prelude::*;

verus! {

pub const ASCII_ZERO: u8 = 48;

pub const ASCII_ONE: u8 = 49;

pub const ASCII_NINE: u8 = 57;

pub const NEWLINE: u8 = 10;

pub open spec fn pow10(k: nat) -> nat
    decreases k,
{
    if k == 0 {
        1
    } else {
        10 * pow10((k - 1) as nat)
    }
}

pub open spec fn is_digit(b: u8) -> bool {
    ASCII_ZERO <= b <= ASCII_NINE
}

/// The numeric value of one ASCII digit byte.
pub open spec fn digit_value(b: u8) -> nat
    recommends
        is_digit(b),
{
    (b - ASCII_ZERO) as nat
}

/// The ASCII digit byte for one decimal digit.
pub open spec fn digit_byte(d: nat) -> u8
    recommends
        d < 10,
{
    (ASCII_ZERO + d) as u8
}

/// The decimal ASCII text of `n`, most significant digit first,
/// with no leading zeros (except for `n == 0`, which is "0").
pub open spec fn digits_of(n: nat) -> Seq<u8>
    decreases n,
{
    if n < 10 {
        seq![digit_byte(n)]
    } else {
        digits_of(n / 10).push(digit_byte(n % 10))
    }
}

/// The number a digit sequence denotes, most significant digit first.
pub open spec fn val_of(s: Seq<u8>) -> nat
    decreases s.len(),
{
    if s.len() == 0 {
        0
    } else {
        10 * val_of(s.drop_last()) + digit_value(s.last())
    }
}

pub open spec fn all_digits(s: Seq<u8>) -> bool {
    forall|i: int| 0 <= i < s.len() ==> is_digit(#[trigger] s[i])
}

/// A digit sequence as the counter keeps it: nonempty, digits only,
/// no leading zero.
pub open spec fn canonical(s: Seq<u8>) -> bool {
    &&& s.len() >= 1
    &&& all_digits(s)
    &&& s[0] != ASCII_ZERO
}

pub open spec fn fizz_line() -> Seq<u8> {
    seq![70u8, 105u8, 122u8, 122u8, NEWLINE]
}

pub open spec fn buzz_line() -> Seq<u8> {
    seq![66u8, 117u8, 122u8, 122u8, NEWLINE]
}

pub open spec fn fizzbuzz_line() -> Seq<u8> {
    seq![70u8, 105u8, 122u8, 122u8, 66u8, 117u8, 122u8, 122u8, NEWLINE]
}

pub open spec fn number_line(n: nat) -> Seq<u8> {
    digits_of(n).push(NEWLINE)
}

/// The newline-terminated token owed for the integer `n`: `FizzBuzz` for
/// multiples of 15, `Fizz` for other multiples of 3, `Buzz` for other
/// multiples of 5, and the decimal text of `n` otherwise.
pub open spec fn line_of(n: nat) -> Seq<u8> {
    if n % 15 == 0 {
        fizzbuzz_line()
    } else if n % 3 == 0 {
        fizz_line()
    } else if n % 5 == 0 {
        buzz_line()
    } else {
        number_line(n)
    }
}

/// The whole output for the integers `1..=n`.
pub open spec fn output_upto(n: nat) -> Seq<u8>
    decreases n,
{
    if n == 0 {
        Seq::empty()
    } else {
        output_upto((n - 1) as nat) + line_of(n)
    }
}

/// The tokens for `count` consecutive integers starting at `start`.
pub open spec fn lines_from(start: nat, count: nat) -> Seq<u8>
    decreases count,
{
    if count == 0 {
        Seq::empty()
    } else {
        line_of(start) + lines_from(start + 1, (count - 1) as nat)
    }
}

pub proof fn lemma_pow10_pos(k: nat)
    ensures
        pow10(k) >= 1,
    decreases k,
{
    if k > 0 {
        lemma_pow10_pos((k - 1) as nat);
    }
}

pub proof fn lemma_pow10_mono(a: nat, b: nat)
    requires
        a <= b,
    ensures
        pow10(a) <= pow10(b),
    decreases b,
{
    if a < b {
        lemma_pow10_mono(a, (b - 1) as nat);
        lemma_pow10_pos((b - 1) as nat);
    }
}

/// Reading a concatenation: the left part is shifted by the length of the
/// right part.
pub proof fn lemma_val_of_concat(s: Seq<u8>, t: Seq<u8>)
    ensures
        val_of(s + t) == val_of(s) * pow10(t.len()) + val_of(t),
    decreases t.len(),
{
    if t.len() == 0 {
        assert(s + t =~= s);
        assert(val_of(t) == 0);
        assert(pow10(0) == 1);
        assert(val_of(s) * 1 == val_of(s));
        assert(val_of(s + t) == val_of(s) * pow10(t.len()) + val_of(t));
    } else {
        let t0 = t.drop_last();
        let a = val_of(s);
        let d = digit_value(t.last());
        assert((s + t).drop_last() =~= s + t0);
        assert((s + t).last() == t.last());
        lemma_val_of_concat(s, t0);
        assert(val_of(s + t) == 10 * val_of(s + t0) + d);
        assert(val_of(t) == 10 * val_of(t0) + d);
        assert((t.len() - 1) as nat == t0.len());
        assert(pow10(t.len()) == 10 * pow10(t0.len()));
        assert(10 * (a * pow10(t0.len()) + val_of(t0)) == a * (10 * pow10(t0.len())) + 10
            * val_of(t0)) by (nonlinear_arith);
        assert(val_of(s + t) == 10 * (a * pow10(t0.len()) + val_of(t0)) + d);
        assert(val_of(s + t) == a * pow10(t.len()) + (10 * val_of(t0) + d));
        assert(val_of(s + t) == val_of(s) * pow10(t.len()) + val_of(t));
    }
}

/// A digit sequence is bounded by the power of ten of its width, and a
/// canonical one reaches the previous power of ten.
pub proof fn lemma_val_of_bounds(s: Seq<u8>)
    ensures
        all_digits(s) ==> val_of(s) < pow10(s.len()),
        canonical(s) ==> val_of(s) >= pow10((s.len() - 1) as nat),
    decreases s.len(),
{
    if s.len() == 0 {
    } else {
        let p = s.drop_last();
        lemma_val_of_bounds(p);
        if all_digits(s) {
            assert(all_digits(p));
            assert(is_digit(s.last()));
            assert(digit_value(s.last()) <= 9);
            assert(pow10(s.len()) == 10 * pow10(p.len()));
        }
        if canonical(s) {
            if s.len() == 1 {
                assert(digit_value(s.last()) >= 1);
            } else {
                assert(canonical(p));
                assert(val_of(p) >= pow10((p.len() - 1) as nat));
                assert(pow10((s.len() - 1) as nat) == 10 * pow10((p.len() - 1) as nat));
            }
        }
    }
}

/// How wide a number's text can be: below `pow10(k)` it takes at most `k`
/// digits.
pub proof fn lemma_digits_of_len(n: nat, k: nat)
    requires
        n < pow10(k),
        k >= 1,
    ensures
        digits_of(n).len() <= k,
    decreases k,
{
    if n < 10 {
    } else {
        assert(k >= 2) by {
            if k == 1 {
                assert(pow10(0nat) == 1);
                assert(pow10(1nat) == 10 * pow10(0nat));
            }
        }
        assert(pow10(k) == 10 * pow10((k - 1) as nat));
        lemma_multiply_divide_lt(n as int, 10, pow10((k - 1) as nat) as int);
        lemma_digits_of_len(n / 10, (k - 1) as nat);
    }
}

/// Formatting inverts reading: a canonical digit sequence is the text of
/// its own value.
pub proof fn lemma_digits_of_val_of(s: Seq<u8>)
    requires
        canonical(s),
    ensures
        digits_of(val_of(s)) == s,
    decreases s.len(),
{
    let v = val_of(s);
    if s.len() == 1 {
        assert(digit_value(s.last()) >= 1 && digit_value(s.last()) <= 9);
        assert(s.drop_last() =~= Seq::<u8>::empty());
        assert(val_of(Seq::<u8>::empty()) == 0);
        assert(s.last() == s[0]);
        assert(v == digit_value(s[0]));
        assert(digit_byte(digit_value(s[0])) == s[0]);
        assert(digits_of(v) =~= s);
    } else {
        let p = s.drop_last();
        let d = digit_value(s.last());
        assert(canonical(p));
        assert(v == 10 * val_of(p) + d);
        lemma_val_of_bounds(p);
        assert(val_of(p) >= 1) by {
            lemma_pow10_pos((p.len() - 1) as nat);
        }
        assert(v >= 10);
        assert(v / 10 == val_of(p) && v % 10 == d) by {
            lemma_fundamental_div_mod_converse(v as int, 10, val_of(p) as int, d as int);
        }
        lemma_digits_of_val_of(p);
        assert(digit_byte(digit_value(s.last())) == s.last());
        assert(digits_of(v) == digits_of(val_of(p)).push(digit_byte(d)));
        assert(digits_of(v) =~= s);
    }
}

/// Changing one digit changes the value by the digit difference at that
/// position's place value.
pub proof fn lemma_val_of_update(s: Seq<u8>, i: int, c: u8)
    requires
        0 <= i < s.len(),
    ensures
        val_of(s.update(i, c)) + digit_value(s[i]) * pow10((s.len() - 1 - i) as nat) == val_of(s)
            + digit_value(c) * pow10((s.len() - 1 - i) as nat),
    decreases s.len(),
{
    let su = s.update(i, c);
    let ds = digit_value(s[i]);
    let dc = digit_value(c);
    if i == s.len() - 1 {
        assert(su.drop_last() =~= s.drop_last());
        assert(su.last() == c);
        assert(val_of(su) == 10 * val_of(s.drop_last()) + dc);
        assert(val_of(s) == 10 * val_of(s.drop_last()) + ds);
        assert((s.len() - 1 - i) as nat == 0);
        assert(pow10(0) == 1);
        assert(ds * pow10(0) == ds && dc * pow10(0) == dc) by (nonlinear_arith)
            requires
                pow10(0) == 1,
        ;
        assert(val_of(su) + ds * pow10((s.len() - 1 - i) as nat) == val_of(s) + dc * pow10(
            (s.len() - 1 - i) as nat,
        ));
    } else {
        let p = s.drop_last();
        assert(su.drop_last() =~= p.update(i, c));
        assert(su.last() == s.last());
        assert(p[i] == s[i]);
        lemma_val_of_update(p, i, c);
        let w = pow10((p.len() - 1 - i) as nat);
        // the induction hypothesis, scaled by 10
        assert(10 * (val_of(p.update(i, c)) + ds * w) == 10 * (val_of(p) + dc * w));
        assert(val_of(su) == 10 * val_of(p.update(i, c)) + digit_value(s.last()));
        assert(val_of(s) == 10 * val_of(p) + digit_value(s.last()));
        assert((s.len() - 1 - i) as nat == (p.len() - 1 - i) as nat + 1);
        assert(pow10((s.len() - 1 - i) as nat) == 10 * w);
        assert(ds * (10 * w) == 10 * (ds * w)) by (nonlinear_arith);
        assert(dc * (10 * w) == 10 * (dc * w)) by (nonlinear_arith);
    }
}

pub proof fn lemma_val_of_zeros(s: Seq<u8>)
    requires
        forall|i: int| 0 <= i < s.len() ==> s[i] == ASCII_ZERO,
    ensures
        val_of(s) == 0,
    decreases s.len(),
{
    if s.len() > 0 {
        lemma_val_of_zeros(s.drop_last());
    }
}

/// The output for fewer numbers is a prefix of the output for more: the two
/// generators agree on however much both produced.
pub proof fn lemma_output_upto_prefix(a: nat, b: nat)
    requires
        a <= b,
    ensures
        output_upto(a).is_prefix_of(output_upto(b)),
    decreases b,
{
    if a < b {
        lemma_output_upto_prefix(a, (b - 1) as nat);
        assert(output_upto(b) == output_upto((b - 1) as nat) + line_of(b));
        assert(output_upto(a).is_prefix_of(output_upto(b)));
    }
}

/// Truncated to the shorter of the two, the outputs for any two bounds are
/// byte-identical.
pub proof fn lemma_truncated_outputs_agree(a: nat, b: nat)
    ensures
        ({
            let oa = output_upto(a);
            let ob = output_upto(b);
            let m = if oa.len() <= ob.len() {
                oa.len()
            } else {
                ob.len()
            };
            oa.take(m as int) == ob.take(m as int)
        }),
{
    let oa = output_upto(a);
    let ob = output_upto(b);
    if a <= b {
        lemma_output_upto_prefix(a, b);
        assert(oa.take(oa.len() as int) =~= oa);
    } else {
        lemma_output_upto_prefix(b, a);
        assert(ob.take(ob.len() as int) =~= ob);
    }
}

/// The bounded engine and the per-number reference generator agree
/// byte-for-byte on the shorter of their two outputs, for any bound: the
/// engine emits whole cycles (`15 * (until / 15)` numbers), the reference
/// emits `until - 1` numbers, and each output is a prefix of the longer
/// one.
pub proof fn lemma_engine_agrees_with_reference(until: u64)
    requires
        until >= 1,
    ensures
        ({
            let e = output_upto(15 * (until as nat / 15));
            let r = output_upto((until - 1) as nat);
            let m = if e.len() <= r.len() {
                e.len()
            } else {
                r.len()
            };
            e.take(m as int) == r.take(m as int)
        }),
{
    lemma_truncated_outputs_agree(15 * (until as nat / 15), (until - 1) as nat);
}

pub proof fn lemma_lines_from_snoc(start: nat, count: nat)
    requires
        count >= 1,
    ensures
        lines_from(start, count) == lines_from(start, (count - 1) as nat) + line_of(
            (start + count - 1) as nat,
        ),
    decreases count,
{
    if count == 1 {
        assert(lines_from((start + 1) as nat, 0nat) =~= Seq::<u8>::empty());
        assert(lines_from(start, 0nat) =~= Seq::<u8>::empty());
        assert(lines_from(start, 1nat) =~= line_of(start));
        assert(lines_from(start, 0nat) + line_of(start) =~= line_of(start));
    } else {
        lemma_lines_from_snoc(start + 1, (count - 1) as nat);
        assert(lines_from(start, count) == line_of(start) + lines_from(
            start + 1,
            (count - 1) as nat,
        ));
        assert(lines_from(start, (count - 1) as nat) == line_of(start) + lines_from(
            start + 1,
            (count - 2) as nat,
        ));
        assert(line_of(start) + (lines_from(start + 1, (count - 2) as nat) + line_of(
            (start + count - 1) as nat,
        )) =~= (line_of(start) + lines_from(start + 1, (count - 2) as nat)) + line_of(
            (start + count - 1) as nat,
        ));
    }
}

/// The whole output decomposes at any point into a prefix and the lines
/// that follow it.
pub proof fn lemma_output_upto_lines(a: nat, c: nat)
    ensures
        output_upto(a + c) == output_upto(a) + lines_from((a + 1) as nat, c),
    decreases c,
{
    if c == 0 {
        assert(lines_from((a + 1) as nat, 0nat) =~= Seq::<u8>::empty());
        assert(output_upto(a) + Seq::<u8>::empty() =~= output_upto(a));
    } else {
        lemma_output_upto_lines(a, (c - 1) as nat);
        lemma_lines_from_snoc((a + 1) as nat, c);
        assert(output_upto(a + c) == output_upto((a + c - 1) as nat) + line_of(a + c));
        assert((output_upto(a) + lines_from((a + 1) as nat, (c - 1) as nat)) + line_of(a + c)
            =~= output_upto(a) + (lines_from((a + 1) as nat, (c - 1) as nat) + line_of(a + c)));
    }
}

/// Divisibility by 3 and by 5 is decided by the residue mod 15: one cycle
/// of 15 consecutive integers repeats the Fizz/Buzz pattern exactly.
pub proof fn lemma_mod_15_parts(n: nat)
    ensures
        n % 3 == (n % 15) % 3,
        n % 5 == (n % 15) % 5,
        n % 15 < 15,
{
    lemma_mod_mod(n as int, 3, 5);
    lemma_mod_mod(n as int, 5, 3);
    vstd::arithmetic::div_mod::lemma_mod_bound(n as int, 15);
}

/// One token of a cycle: for `v % 15 == 1` and an offset `j`, the token for
/// `v + j` is decided by `(1 + j) % 15`.
pub proof fn lemma_line_at_offset(v: nat, j: nat)
    requires
        v % 15 == 1,
        j < 15,
    ensures
        (v + j) % 15 == (1 + j) % 15,
    decreases j,
{
    if j == 0 {
        lemma_small_mod(1, 15);
    } else {
        lemma_line_at_offset(v, (j - 1) as nat);
        lemma_mod_basic_step((v + j - 1) as nat);
        lemma_mod_basic_step((1 + j - 1) as nat);
    }
}

/// Stepping a number by one steps its residue mod 15, wrapping at 15.
proof fn lemma_mod_basic_step(n: nat)
    ensures
        (n + 1) % 15 == if n % 15 == 14 {
            0nat
        } else {
            (n % 15 + 1) as nat
        },
{
    lemma_fundamental_div_mod(n as int, 15);
    let q = n as int / 15;
    let r = n % 15;
    vstd::arithmetic::div_mod::lemma_mod_bound(n as int, 15);
    if r == 14 {
        lemma_fundamental_div_mod_converse((n + 1) as int, 15, q + 1, 0);
    } else {
        lemma_fundamental_div_mod_converse((n + 1) as int, 15, q, r as int + 1);
    }
}

/// Cycle correctness: starting at any `v` that is one past a multiple of
/// 15, one cycle owes exactly these fifteen tokens in order: two numbers,
/// Fizz, a number, Buzz, Fizz, two numbers, Fizz, Buzz, a number, Fizz,
/// two numbers, FizzBuzz.
/// Cycle correctness: starting at any `v` that is one past a multiple of
/// 15, one cycle owes exactly these fifteen tokens in order: two numbers,
/// Fizz, a number, Buzz, Fizz, two numbers, Fizz, Buzz, a number, Fizz,
/// two numbers, FizzBuzz.
pub proof fn lemma_cycle_lines(v: nat)
    requires
        v % 15 == 1,
    ensures
        lines_from(v, 15) == number_line(v) + number_line(v + 1) + fizz_line() + number_line(v + 3)
            + buzz_line() + fizz_line() + number_line(v + 6) + number_line(v + 7) + fizz_line()
            + buzz_line() + number_line(v + 10) + fizz_line() + number_line(v + 12) + number_line(
            v + 13,
        ) + fizzbuzz_line(),
{
    lemma_cycle_token_kinds(v);
    lemma_lines_from_snoc(v, 15);
    lemma_lines_from_snoc(v, 14);
    lemma_lines_from_snoc(v, 13);
    lemma_lines_from_snoc(v, 12);
    lemma_lines_from_snoc(v, 11);
    lemma_lines_from_snoc(v, 10);
    lemma_lines_from_snoc(v, 9);
    lemma_lines_from_snoc(v, 8);
    lemma_lines_from_snoc(v, 7);
    lemma_lines_from_snoc(v, 6);
    lemma_lines_from_snoc(v, 5);
    lemma_lines_from_snoc(v, 4);
    lemma_lines_from_snoc(v, 3);
    lemma_lines_from_snoc(v, 2);
    lemma_lines_from_snoc(v, 1);
    assert(lines_from(v, 0nat) == Seq::<u8>::empty());
    assert(Seq::<u8>::empty() + line_of(v) =~= line_of(v));
    assert((v + 1 - 1) as nat == v);
    assert((v + 2 - 1) as nat == v + 1);
    assert((v + 3 - 1) as nat == v + 2);
    assert((v + 4 - 1) as nat == v + 3);
    assert((v + 5 - 1) as nat == v + 4);
    assert((v + 6 - 1) as nat == v + 5);
    assert((v + 7 - 1) as nat == v + 6);
    assert((v + 8 - 1) as nat == v + 7);
    assert((v + 9 - 1) as nat == v + 8);
    assert((v + 10 - 1) as nat == v + 9);
    assert((v + 11 - 1) as nat == v + 10);
    assert((v + 12 - 1) as nat == v + 11);
    assert((v + 13 - 1) as nat == v + 12);
    assert((v + 14 - 1) as nat == v + 13);
    assert((v + 15 - 1) as nat == v + 14);
}

/// Works out each of the fifteen tokens of a cycle that starts one past a
/// multiple of 15.
pub proof fn lemma_cycle_token_kinds(v: nat)
    requires
        v % 15 == 1,
    ensures
        line_of(v) == number_line(v),
        line_of(v + 1) == number_line(v + 1),
        line_of(v + 2) == fizz_line(),
        line_of(v + 3) == number_line(v + 3),
        line_of(v + 4) == buzz_line(),
        line_of(v + 5) == fizz_line(),
        line_of(v + 6) == number_line(v + 6),
        line_of(v + 7) == number_line(v + 7),
        line_of(v + 8) == fizz_line(),
        line_of(v + 9) == buzz_line(),
        line_of(v + 10) == number_line(v + 10),
        line_of(v + 11) == fizz_line(),
        line_of(v + 12) == number_line(v + 12),
        line_of(v + 13) == number_line(v + 13),
        line_of(v + 14) == fizzbuzz_line(),
{
    lemma_line_at_offset(v, 0);
    lemma_line_at_offset(v, 1);
    lemma_line_at_offset(v, 2);
    lemma_line_at_offset(v, 3);
    lemma_line_at_offset(v, 4);
    lemma_line_at_offset(v, 5);
    lemma_line_at_offset(v, 6);
    lemma_line_at_offset(v, 7);
    lemma_line_at_offset(v, 8);
    lemma_line_at_offset(v, 9);
    lemma_line_at_offset(v, 10);
    lemma_line_at_offset(v, 11);
    lemma_line_at_offset(v, 12);
    lemma_line_at_offset(v, 13);
    lemma_line_at_offset(v, 14);
    lemma_mod_15_parts(v);
    lemma_mod_15_parts(v + 1);
    lemma_mod_15_parts(v + 2);
    lemma_mod_15_parts(v + 3);
    lemma_mod_15_parts(v + 4);
    lemma_mod_15_parts(v + 5);
    lemma_mod_15_parts(v + 6);
    lemma_mod_15_parts(v + 7);
    lemma_mod_15_parts(v + 8);
    lemma_mod_15_parts(v + 9);
    lemma_mod_15_parts(v + 10);
    lemma_mod_15_parts(v + 11);
    lemma_mod_15_parts(v + 12);
    lemma_mod_15_parts(v + 13);
    lemma_mod_15_parts(v + 14);
    assert((1nat) % 15 == 1 && (2nat) % 15 == 2 && (3nat) % 15 == 3 && (4nat) % 15 == 4 && (5nat)
        % 15 == 5 && (6nat) % 15 == 6 && (7nat) % 15 == 7 && (8nat) % 15 == 8 && (9nat) % 15 == 9
        && (10nat) % 15 == 10 && (11nat) % 15 == 11 && (12nat) % 15 == 12 && (13nat) % 15 == 13 && (
    14nat) % 15 == 14 && (15nat) % 15 == 0);
    assert((1nat) % 3 == 1 && (2nat) % 3 == 2 && (3nat) % 3 == 0 && (4nat) % 3 == 1 && (5nat) % 3
        == 2 && (6nat) % 3 == 0 && (7nat) % 3 == 1 && (8nat) % 3 == 2 && (9nat) % 3 == 0 && (10nat)
        % 3 == 1 && (11nat) % 3 == 2 && (12nat) % 3 == 0 && (13nat) % 3 == 1 && (14nat) % 3 == 2
        && (0nat) % 3 == 0);
    assert((1nat) % 5 == 1 && (2nat) % 5 == 2 && (3nat) % 5 == 3 && (4nat) % 5 == 4 && (5nat) % 5
        == 0 && (6nat) % 5 == 1 && (7nat) % 5 == 2 && (8nat) % 5 == 3 && (9nat) % 5 == 4 && (10nat)
        % 5 == 0 && (11nat) % 5 == 1 && (12nat) % 5 == 2 && (13nat) % 5 == 3 && (14nat) % 5 == 4
        && (0nat) % 5 == 0);
}

} // verus!
