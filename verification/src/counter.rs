//! The decimal counter: an unsigned integer kept directly as ASCII digit
//! bytes, right-aligned in a fixed buffer, and incremented in place.
//!
//! Incrementing rewrites trailing nines to zeros and bumps the first
//! lower digit; when every active digit was a nine, a new leading one is
//! written immediately left of the old text and the active width grows by
//! one. No digit is ever reformatted from a binary integer.

use crate::model::{
    all_digits, canonical, digit_value, digits_of, is_digit, lemma_digits_of_val_of,
    lemma_pow10_mono, lemma_pow10_pos, lemma_val_of_bounds, lemma_val_of_concat,
    lemma_val_of_update, lemma_val_of_zeros, number_line, pow10, val_of, ASCII_NINE, ASCII_ONE,
    ASCII_ZERO, NEWLINE,
};
use vstd::prelude::*;
use vstd::slice::SliceAdditionalExecFns;

verus! {

/// Digit capacity of the counter. Runs would take ages to exhaust 16
/// digits; going past them is left out of the contracts.
pub const MAX_SIZE: usize = 16;

pub struct Decimal {
    len: usize,
    buf: Vec<u8>,
}

impl Decimal {
    /// The active digit bytes, most significant first.
    pub closed spec fn digits(self) -> Seq<u8> {
        self.buf@.subrange(MAX_SIZE - self.len, MAX_SIZE as int)
    }

    /// The number the counter currently holds.
    pub closed spec fn value(self) -> nat {
        val_of(self.digits())
    }

    /// How many digit bytes are active.
    pub closed spec fn width(self) -> nat {
        self.len as nat
    }

    pub closed spec fn wf(self) -> bool {
        &&& self.buf@.len() == MAX_SIZE
        &&& 1 <= self.len <= MAX_SIZE
        &&& canonical(self.digits())
    }

    /// What well-formedness gives: the active bytes are exactly the text
    /// of the value, and the width pins the value between two powers of
    /// ten.
    pub proof fn lemma_wf_facts(self)
        requires
            self.wf(),
        ensures
            self.digits() == digits_of(self.value()),
            self.width() == digits_of(self.value()).len(),
            pow10((self.width() - 1) as nat) <= self.value() < pow10(self.width()),
            self.value() >= 1,
            1 <= self.width() <= MAX_SIZE,
    {
        lemma_digits_of_val_of(self.digits());
        lemma_val_of_bounds(self.digits());
        lemma_pow10_pos((self.width() - 1) as nat);
    }

    /// A fresh counter holding the value 1.
    pub fn new() -> (r: Self)
        ensures
            r.wf(),
            r.value() == 1,
            r.width() == 1,
    {
        let mut buf: Vec<u8> = vec![ASCII_ZERO; 16];
        buf.set(MAX_SIZE - 1, ASCII_ONE);
        let r = Decimal { len: 1, buf };
        proof {
            assert(r.digits() =~= seq![ASCII_ONE]);
            assert(seq![ASCII_ONE].drop_last() =~= Seq::<u8>::empty());
            assert(val_of(Seq::<u8>::empty()) == 0);
            assert(digit_value(ASCII_ONE) == 1);
        }
        r
    }

    /// Advance to the next integer's text, in place: trailing nines become
    /// zeros, the first lower digit is bumped, and a carry past the most
    /// significant digit grows the text leftward by one new leading one.
    pub fn inc(&mut self)
        requires
            old(self).wf(),
            old(self).value() < pow10((MAX_SIZE - 1) as nat),
        ensures
            final(self).wf(),
            final(self).value() == old(self).value() + 1,
            final(self).width() == digits_of(old(self).value() + 1).len(),
    {
        let ghost len0 = old(self).len as int;
        let ghost buf0 = old(self).buf@;
        let ghost value0 = old(self).value();
        proof {
            old(self).lemma_wf_facts();
            if old(self).len == MAX_SIZE {
                lemma_pow10_mono((MAX_SIZE - 1) as nat, (old(self).width() - 1) as nat);
                assert(false);
            }
        }
        let new_index: usize = MAX_SIZE - self.len - 1;
        let mut index: usize = MAX_SIZE - 1;
        loop
            invariant_except_break
                self.len as int == len0,
                1 <= len0 <= MAX_SIZE - 1,
                new_index as int == MAX_SIZE - len0 - 1,
                new_index < index <= MAX_SIZE - 1,
                self.buf@.len() == MAX_SIZE,
                buf0.len() == MAX_SIZE,
                canonical(buf0.subrange(MAX_SIZE - len0, MAX_SIZE as int)),
                all_digits(self.digits()),
                forall|j: int| 0 <= j <= index ==> self.buf@[j] == #[trigger] buf0[j],
                forall|j: int| index < j < MAX_SIZE ==> #[trigger] self.buf@[j] == ASCII_ZERO,
                forall|j: int| index < j < MAX_SIZE ==> #[trigger] buf0[j] == ASCII_NINE,
                val_of(self.digits()) + pow10((MAX_SIZE - 1 - index) as nat) == value0 + 1,
            ensures
                self.buf@.len() == MAX_SIZE,
                self.len == len0 || self.len == len0 + 1,
                1 <= self.len <= MAX_SIZE,
                canonical(self.digits()),
                val_of(self.digits()) == value0 + 1,
            decreases index,
        {
            let ghost d_pre = self.digits();
            let ghost buf_head = self.buf@;
            let ghost idx0 = index as int;
            let ghost rel = index - (MAX_SIZE - len0);
            proof {
                assert(pow10(0) == 1);
                assert(d_pre[rel] == self.buf@[index as int]);
                assert(d_pre.len() == len0);
            }
            let digit = self.buf[index];
            if digit == ASCII_NINE {
                self.buf.set(index, ASCII_ZERO);
                proof {
                    assert(self.digits() =~= d_pre.update(rel, ASCII_ZERO));
                    lemma_digit_write(d_pre, rel, ASCII_ZERO);
                    assert((d_pre.len() - 1 - rel) as nat == (MAX_SIZE - 1 - index) as nat);
                    assert(pow10((MAX_SIZE - 1 - (index - 1)) as nat) == 10 * pow10(
                        (MAX_SIZE - 1 - index) as nat,
                    ));
                }
                index = index - 1;
                if index == new_index {
                    let ghost buf_mid = self.buf@;
                    let ghost d_mid = self.digits();
                    proof {
                        assert(val_of(d_pre) + pow10((MAX_SIZE - 1 - idx0) as nat) == value0 + 1);
                        assert(d_mid =~= d_pre.update(rel, ASCII_ZERO));
                        assert(d_pre[rel] == ASCII_NINE);
                        assert(digit_value(ASCII_NINE) == 9);
                        assert(digit_value(ASCII_ZERO) == 0);
                        assert((d_pre.len() - 1 - rel) as nat == (MAX_SIZE - 1 - idx0) as nat);
                        assert(val_of(d_pre.update(rel, ASCII_ZERO)) + 9 * pow10(
                            (MAX_SIZE - 1 - idx0) as nat,
                        ) == val_of(d_pre) + 0 * pow10((MAX_SIZE - 1 - idx0) as nat));
                        assert(val_of(d_mid) + 10 * pow10((MAX_SIZE - 1 - idx0) as nat) == value0
                            + 1);
                        assert(idx0 == MAX_SIZE - len0);
                        assert((MAX_SIZE - 1 - idx0) as nat == (len0 - 1) as nat);
                        assert(pow10(len0 as nat) == 10 * pow10((len0 - 1) as nat));
                        assert(val_of(d_mid) + pow10(len0 as nat) == value0 + 1);
                    }
                    self.buf.set(index, ASCII_ONE);
                    self.len = self.len + 1;
                    proof {
                        let zeros = self.buf@.subrange(MAX_SIZE - len0, MAX_SIZE as int);
                        assert forall|j: int|
                            MAX_SIZE - len0 <= j < MAX_SIZE implies self.buf@[j]
                            == ASCII_ZERO by {
                            assert(self.buf@[j] == buf_mid[j]);
                            if j == idx0 {
                                assert(buf_mid[j] == ASCII_ZERO);
                            } else {
                                assert(buf0[j] == ASCII_NINE);
                                assert(buf_mid[j] == buf_head[j]);
                                assert(buf_head[j] == ASCII_ZERO);
                            }
                        }
                        lemma_val_of_zeros(zeros);
                        assert(zeros =~= d_mid);
                        assert(pow10(len0 as nat) == value0 + 1);
                        let d_new = self.buf@.subrange(MAX_SIZE - len0 - 1, MAX_SIZE as int);
                        assert(d_new =~= seq![ASCII_ONE] + zeros);
                        lemma_val_of_concat(seq![ASCII_ONE], zeros);
                        assert(seq![ASCII_ONE].drop_last() =~= Seq::<u8>::empty());
                        assert(val_of(Seq::<u8>::empty()) == 0);
                        assert(digit_value(ASCII_ONE) == 1);
                        assert(val_of(seq![ASCII_ONE]) == 1);
                        assert(zeros.len() == len0 as nat);
                        assert(val_of(seq![ASCII_ONE] + zeros) == 1 * pow10(len0 as nat) + 0);
                        assert(1 * pow10(len0 as nat) + 0 == pow10(len0 as nat));
                        assert(val_of(d_new) == pow10(len0 as nat));
                        assert(self.digits() =~= d_new);
                        assert(val_of(self.digits()) == value0 + 1);
                        assert(canonical(self.digits()));
                    }
                    break ;
                }
                proof {
                    assert forall|j: int| index < j < MAX_SIZE implies #[trigger] self.buf@[j]
                        == ASCII_ZERO by {
                        if j == idx0 {
                            assert(self.buf@[j] == ASCII_ZERO);
                        } else {
                            assert(buf0[j] == ASCII_NINE);
                            assert(self.buf@[j] == buf_head[j]);
                            assert(buf_head[j] == ASCII_ZERO);
                        }
                    }
                    assert forall|j: int| index < j < MAX_SIZE implies #[trigger] buf0[j]
                        == ASCII_NINE by {
                        if j == idx0 {
                            assert(buf_head[j] == buf0[j]);
                            assert(buf_head[j] == ASCII_NINE);
                        } else {
                            assert(buf0[j] == ASCII_NINE);
                        }
                    }
                }
            } else {
                proof {
                    assert(is_digit(digit));
                }
                self.buf.set(index, digit + 1);
                proof {
                    let d_new = self.digits();
                    assert(d_new =~= d_pre.update(rel, (digit + 1) as u8));
                    lemma_digit_write(d_pre, rel, (digit + 1) as u8);
                    assert(digit_value((digit + 1) as u8) == digit_value(digit) + 1);
                    assert((d_pre.len() - 1 - rel) as nat == (MAX_SIZE - 1 - index) as nat);
                    let w = pow10((MAX_SIZE - 1 - index) as nat);
                    assert((digit_value(digit) + 1) * w == digit_value(digit) * w + w)
                        by (nonlinear_arith);
                    assert(val_of(d_new) == value0 + 1);
                    // the leading digit is nonzero: untouched if the write
                    // was to the right of it, and at least two if bumped
                    if rel == 0 {
                        assert(d_new[0] == digit + 1);
                    } else {
                        assert(d_new[0] == buf0[MAX_SIZE - len0]);
                        assert(buf0.subrange(MAX_SIZE - len0, MAX_SIZE as int)[0] == buf0[MAX_SIZE
                            - len0]);
                    }
                    assert(canonical(d_new));
                }
                break ;
            }
        }
        proof {
            assert(self.wf());
            self.lemma_wf_facts();
        }
    }

    /// Append the counter's text and a newline to `out`.
    pub fn write_to(&self, out: &mut Vec<u8>)
        requires
            self.wf(),
        ensures
            final(out)@ == old(out)@ + number_line(self.value()),
    {
        proof {
            self.lemma_wf_facts();
        }
        let start: usize = MAX_SIZE - self.len;
        let mut k: usize = start;
        while k < MAX_SIZE
            invariant
                self.wf(),
                start as int == MAX_SIZE - self.len,
                start <= k <= MAX_SIZE,
                self.buf@.len() == MAX_SIZE,
                out@ == old(out)@ + self.digits().subrange(0, k - start),
            decreases MAX_SIZE - k,
        {
            let b = self.buf[k];
            out.push(b);
            proof {
                assert(self.digits()[k - start] == self.buf@[k as int]);
                assert(self.digits().subrange(0, k + 1 - start) =~= self.digits().subrange(
                    0,
                    k - start,
                ).push(b));
                assert(out@ =~= old(out)@ + self.digits().subrange(0, k + 1 - start));
            }
            k = k + 1;
        }
        out.push(NEWLINE);
        proof {
            self.lemma_wf_facts();
            assert(self.digits().subrange(0, self.len as int) =~= self.digits());
            assert(out@ =~= old(out)@ + number_line(self.value()));
        }
    }

    /// The active width, as the capacity estimate needs it.
    pub fn digit_count(&self) -> (r: usize)
        requires
            self.wf(),
        ensures
            r == self.width(),
            1 <= r <= MAX_SIZE,
    {
        self.len
    }
}

/// Writing one digit position changes the value by the digit difference
/// at that position's place value.
proof fn lemma_digit_write(d_pre: Seq<u8>, rel: int, c: u8)
    requires
        0 <= rel < d_pre.len(),
    ensures
        val_of(d_pre.update(rel, c)) + digit_value(d_pre[rel]) * pow10(
            (d_pre.len() - 1 - rel) as nat,
        ) == val_of(d_pre) + digit_value(c) * pow10((d_pre.len() - 1 - rel) as nat),
{
    lemma_val_of_update(d_pre, rel, c);
}

} // verus!
