//! The engine: drives one 15-number cycle at a time, appending literals
//! or the counter's text into the cursor, and flushing the cursor to the
//! sink when the next cycle might not fit.
//!
//! A cycle always starts one past a multiple of 15, so the positions of
//! Fizz, Buzz and FizzBuzz inside it are fixed; the counter supplies the
//! text for the other eight positions.

use crate::counter::{Decimal, MAX_SIZE};
use crate::cursor::{Cursor, BUF_SIZE};
use crate::model::{
    lemma_cycle_token_kinds, digits_of, fizz_line, buzz_line, fizzbuzz_line, lemma_digits_of_len,
    lemma_lines_from_snoc, lemma_output_upto_lines, lemma_pow10_mono, line_of, lines_from, number_line,
    output_upto, pow10, NEWLINE,
};
use vstd::arithmetic::div_mod::{
    lemma_fundamental_div_mod, lemma_mod_bound, lemma_mod_multiples_vanish, lemma_small_mod,
};
use vstd::prelude::*;
use vstd::seq_lib::lemma_concat_associative;

verus! {

/// Which append the engine drives the cursor with: the bounds-checked
/// one, or the one whose fit is established before the call and not
/// tested at run time. Keeping both is the point of the comparison.
#[derive(Clone, Copy, Debug, PartialEq, Eq, Structural)]
pub enum Mode {
    Checked,
    Unchecked,
}

/// The byte budget one cycle needs at digit width `w`: 15 newlines, the
/// literal bytes of four Fizz, two Buzz and one FizzBuzz, one number at
/// the current width and seven that may be one digit wider.
pub open spec fn cycle_budget(w: nat) -> nat {
    54 + 8 * w
}

pub struct Looper {
    step: Decimal,
    cur: Cursor,
    mode: Mode,
}

impl Looper {
    /// The next number the engine will emit.
    pub closed spec fn value(self) -> nat {
        self.step.value()
    }

    /// Bytes written into the cursor and not yet flushed.
    pub closed spec fn pending(self) -> Seq<u8> {
        self.cur.contents()
    }

    /// The counter's digit width.
    pub closed spec fn width(self) -> nat {
        self.step.width()
    }

    pub closed spec fn mode_spec(self) -> Mode {
        self.mode
    }

    pub closed spec fn wf(self) -> bool {
        &&& self.step.wf()
        &&& self.cur.wf()
    }

    /// A fresh engine about to emit 1, with an empty cursor.
    pub fn new(mode: Mode) -> (r: Self)
        ensures
            r.wf(),
            r.value() == 1,
            r.width() == 1,
            r.pending() == Seq::<u8>::empty(),
            r.mode_spec() == mode,
    {
        Looper { step: Decimal::new(), cur: Cursor::new(), mode }
    }

    /// Hand bytes to the cursor through the append this engine was built
    /// with. The capacity precondition makes the checked variant's
    /// refusal unreachable.
    fn emit(&mut self, data: &[u8])
        requires
            old(self).wf(),
            old(self).pending().len() + data@.len() <= BUF_SIZE,
        ensures
            final(self).wf(),
            final(self).pending() == old(self).pending() + data@,
            final(self).step == old(self).step,
            final(self).mode_spec() == old(self).mode_spec(),
    {
        match self.mode {
            Mode::Unchecked => self.cur.write(data),
            Mode::Checked => {
                let r = self.cur.write_checked(data);
                match r {
                    Ok(_) => {},
                    Err(_) => {
                        proof {
                            assert(false);
                        }
                    },
                }
            },
        }
    }

    /// Emit `Fizz` and step the counter.
    pub fn fizz(&mut self)
        requires
            old(self).wf(),
            old(self).pending().len() + 5 <= BUF_SIZE,
            old(self).value() < pow10((MAX_SIZE - 1) as nat),
        ensures
            final(self).wf(),
            final(self).pending() == old(self).pending() + fizz_line(),
            final(self).value() == old(self).value() + 1,
            final(self).width() == digits_of(old(self).value() + 1).len(),
            final(self).mode_spec() == old(self).mode_spec(),
    {
        let mut data: Vec<u8> = Vec::new();
        data.push(70);
        data.push(105);
        data.push(122);
        data.push(122);
        data.push(NEWLINE);
        proof {
            assert(data@ =~= fizz_line());
        }
        self.emit(data.as_slice());
        self.step.inc();
    }

    /// Emit `Buzz` and step the counter.
    pub fn buzz(&mut self)
        requires
            old(self).wf(),
            old(self).pending().len() + 5 <= BUF_SIZE,
            old(self).value() < pow10((MAX_SIZE - 1) as nat),
        ensures
            final(self).wf(),
            final(self).pending() == old(self).pending() + buzz_line(),
            final(self).value() == old(self).value() + 1,
            final(self).width() == digits_of(old(self).value() + 1).len(),
            final(self).mode_spec() == old(self).mode_spec(),
    {
        let mut data: Vec<u8> = Vec::new();
        data.push(66);
        data.push(117);
        data.push(122);
        data.push(122);
        data.push(NEWLINE);
        proof {
            assert(data@ =~= buzz_line());
        }
        self.emit(data.as_slice());
        self.step.inc();
    }

    /// Emit `FizzBuzz` and step the counter.
    pub fn fizzbuzz(&mut self)
        requires
            old(self).wf(),
            old(self).pending().len() + 9 <= BUF_SIZE,
            old(self).value() < pow10((MAX_SIZE - 1) as nat),
        ensures
            final(self).wf(),
            final(self).pending() == old(self).pending() + fizzbuzz_line(),
            final(self).value() == old(self).value() + 1,
            final(self).width() == digits_of(old(self).value() + 1).len(),
            final(self).mode_spec() == old(self).mode_spec(),
    {
        let mut data: Vec<u8> = Vec::new();
        data.push(70);
        data.push(105);
        data.push(122);
        data.push(122);
        data.push(66);
        data.push(117);
        data.push(122);
        data.push(122);
        data.push(NEWLINE);
        proof {
            assert(data@ =~= fizzbuzz_line());
        }
        self.emit(data.as_slice());
        self.step.inc();
    }

    /// Emit the counter's number text and step the counter.
    pub fn number(&mut self)
        requires
            old(self).wf(),
            old(self).pending().len() + digits_of(old(self).value()).len() + 1 <= BUF_SIZE,
            old(self).value() < pow10((MAX_SIZE - 1) as nat),
        ensures
            final(self).wf(),
            final(self).pending() == old(self).pending() + number_line(old(self).value()),
            final(self).value() == old(self).value() + 1,
            final(self).width() == digits_of(old(self).value() + 1).len(),
            final(self).mode_spec() == old(self).mode_spec(),
    {
        let mut line: Vec<u8> = Vec::new();
        self.step.write_to(&mut line);
        proof {
            self.step.lemma_wf_facts();
            assert(line@.len() == digits_of(self.value()).len() + 1);
        }
        self.emit(line.as_slice());
        self.step.inc();
    }

    /// Run one whole cycle of 15 numbers, appending its tokens in order.
    #[verifier::rlimit(100)]
    pub fn next15(&mut self)
        requires
            old(self).wf(),
            old(self).value() % 15 == 1,
            old(self).value() + 15 <= pow10((MAX_SIZE - 1) as nat),
            old(self).pending().len() + cycle_budget(old(self).width()) <= BUF_SIZE,
        ensures
            final(self).wf(),
            final(self).value() == old(self).value() + 15,
            final(self).width() == digits_of(old(self).value() + 15).len(),
            final(self).pending() == old(self).pending() + lines_from(old(self).value(), 15),
            final(self).mode_spec() == old(self).mode_spec(),
    {
        let ghost v = old(self).value();
        let ghost w0 = old(self).width();
        let ghost pending0 = old(self).pending();
        proof {
            self.step.lemma_wf_facts();
            lemma_cycle_token_kinds(v);
            assert(pow10(0nat) == 1);
            assert(pow10(1nat) == 10);
            lemma_pow10_mono(1, w0);
            assert(pow10((w0 + 1) as nat) == 10 * pow10(w0));
            assert(v + 14 < pow10((w0 + 1) as nat));
            lemma_digits_of_len(v + 1, w0 + 1);
            lemma_digits_of_len(v + 3, w0 + 1);
            lemma_digits_of_len(v + 6, w0 + 1);
            lemma_digits_of_len(v + 7, w0 + 1);
            lemma_digits_of_len(v + 10, w0 + 1);
            lemma_digits_of_len(v + 12, w0 + 1);
            lemma_digits_of_len(v + 13, w0 + 1);
            assert(digits_of(v).len() == w0);
        }
        self.number();
        proof {
            assert(lines_from(v + 1, 0nat) == Seq::<u8>::empty());
            assert(lines_from(v, 1) =~= line_of(v));
            assert(self.pending() == pending0 + lines_from(v, 1));
        }
        self.number();
        proof {
            lemma_lines_from_snoc(v, 2);
            assert((v + 2 - 1) as nat == v + 1);
            assert(lines_from(v, 2) == lines_from(v, 1) + number_line(v + 1));
            lemma_concat_associative(pending0, lines_from(v, 1), number_line(v + 1));
            assert(self.pending() == pending0 + lines_from(v, 2));
        }
        self.fizz();
        proof {
            lemma_lines_from_snoc(v, 3);
            assert((v + 3 - 1) as nat == v + 2);
            assert(lines_from(v, 3) == lines_from(v, 2) + fizz_line());
            lemma_concat_associative(pending0, lines_from(v, 2), fizz_line());
            assert(self.pending() == pending0 + lines_from(v, 3));
        }
        self.number();
        proof {
            lemma_lines_from_snoc(v, 4);
            assert((v + 4 - 1) as nat == v + 3);
            assert(lines_from(v, 4) == lines_from(v, 3) + number_line(v + 3));
            lemma_concat_associative(pending0, lines_from(v, 3), number_line(v + 3));
            assert(self.pending() == pending0 + lines_from(v, 4));
        }
        self.buzz();
        proof {
            lemma_lines_from_snoc(v, 5);
            assert((v + 5 - 1) as nat == v + 4);
            assert(lines_from(v, 5) == lines_from(v, 4) + buzz_line());
            lemma_concat_associative(pending0, lines_from(v, 4), buzz_line());
            assert(self.pending() == pending0 + lines_from(v, 5));
        }
        self.fizz();
        proof {
            lemma_lines_from_snoc(v, 6);
            assert((v + 6 - 1) as nat == v + 5);
            assert(lines_from(v, 6) == lines_from(v, 5) + fizz_line());
            lemma_concat_associative(pending0, lines_from(v, 5), fizz_line());
            assert(self.pending() == pending0 + lines_from(v, 6));
        }
        self.number();
        proof {
            lemma_lines_from_snoc(v, 7);
            assert((v + 7 - 1) as nat == v + 6);
            assert(lines_from(v, 7) == lines_from(v, 6) + number_line(v + 6));
            lemma_concat_associative(pending0, lines_from(v, 6), number_line(v + 6));
            assert(self.pending() == pending0 + lines_from(v, 7));
        }
        self.number();
        proof {
            lemma_lines_from_snoc(v, 8);
            assert((v + 8 - 1) as nat == v + 7);
            assert(lines_from(v, 8) == lines_from(v, 7) + number_line(v + 7));
            lemma_concat_associative(pending0, lines_from(v, 7), number_line(v + 7));
            assert(self.pending() == pending0 + lines_from(v, 8));
        }
        self.fizz();
        proof {
            lemma_lines_from_snoc(v, 9);
            assert((v + 9 - 1) as nat == v + 8);
            assert(lines_from(v, 9) == lines_from(v, 8) + fizz_line());
            lemma_concat_associative(pending0, lines_from(v, 8), fizz_line());
            assert(self.pending() == pending0 + lines_from(v, 9));
        }
        self.buzz();
        proof {
            lemma_lines_from_snoc(v, 10);
            assert((v + 10 - 1) as nat == v + 9);
            assert(lines_from(v, 10) == lines_from(v, 9) + buzz_line());
            lemma_concat_associative(pending0, lines_from(v, 9), buzz_line());
            assert(self.pending() == pending0 + lines_from(v, 10));
        }
        self.number();
        proof {
            lemma_lines_from_snoc(v, 11);
            assert((v + 11 - 1) as nat == v + 10);
            assert(lines_from(v, 11) == lines_from(v, 10) + number_line(v + 10));
            lemma_concat_associative(pending0, lines_from(v, 10), number_line(v + 10));
            assert(self.pending() == pending0 + lines_from(v, 11));
        }
        self.fizz();
        proof {
            lemma_lines_from_snoc(v, 12);
            assert((v + 12 - 1) as nat == v + 11);
            assert(lines_from(v, 12) == lines_from(v, 11) + fizz_line());
            lemma_concat_associative(pending0, lines_from(v, 11), fizz_line());
            assert(self.pending() == pending0 + lines_from(v, 12));
        }
        self.number();
        proof {
            lemma_lines_from_snoc(v, 13);
            assert((v + 13 - 1) as nat == v + 12);
            assert(lines_from(v, 13) == lines_from(v, 12) + number_line(v + 12));
            lemma_concat_associative(pending0, lines_from(v, 12), number_line(v + 12));
            assert(self.pending() == pending0 + lines_from(v, 13));
        }
        self.number();
        proof {
            lemma_lines_from_snoc(v, 14);
            assert((v + 14 - 1) as nat == v + 13);
            assert(lines_from(v, 14) == lines_from(v, 13) + number_line(v + 13));
            lemma_concat_associative(pending0, lines_from(v, 13), number_line(v + 13));
            assert(self.pending() == pending0 + lines_from(v, 14));
        }
        self.fizzbuzz();
        proof {
            lemma_lines_from_snoc(v, 15);
            assert((v + 15 - 1) as nat == v + 14);
            assert(lines_from(v, 15) == lines_from(v, 14) + fizzbuzz_line());
            lemma_concat_associative(pending0, lines_from(v, 14), fizzbuzz_line());
            assert(self.pending() == pending0 + lines_from(v, 15));
        }
    }

    /// The upper bound on the byte size of the next cycle, from the
    /// counter's current digit width.
    pub fn next_loop_size(&self) -> (r: usize)
        requires
            self.wf(),
        ensures
            r == cycle_budget(self.width()),
    {
        let w = self.step.digit_count();
        let num_length = w + (w + 1) * 7;
        15 + 16 + 8 + 8 + num_length
    }

    /// Whether the cursor must be flushed before the next cycle is safe.
    pub fn flush_due(&self) -> (r: bool)
        requires
            self.wf(),
        ensures
            r <==> cycle_budget(self.width()) > BUF_SIZE - self.pending().len(),
            self.pending().len() <= BUF_SIZE,
    {
        self.next_loop_size() > BUF_SIZE - self.cur.position()
    }

    /// Flush: append the cursor's contents to the sink buffer and reset
    /// the cursor.
    pub fn write_to(&mut self, writer: &mut Vec<u8>)
        requires
            old(self).wf(),
        ensures
            final(self).wf(),
            final(writer)@ == old(writer)@ + old(self).pending(),
            final(self).pending() == Seq::<u8>::empty(),
            final(self).value() == old(self).value(),
            final(self).width() == old(self).width(),
            final(self).mode_spec() == old(self).mode_spec(),
    {
        let mut chunk = self.cur.get_ref();
        writer.append(&mut chunk);
        self.cur.set_pos(0);
        proof {
            assert(old(self).pending().subrange(0, 0) =~= Seq::<u8>::empty());
        }
    }

    /// Run whole cycles while the running count stays below `until`, at
    /// cycle granularity: exactly `until / 15` cycles are emitted, and
    /// everything is flushed to `writer` at the end.
    pub fn run_until(self, writer: &mut Vec<u8>, until: u64)
        requires
            self.wf(),
            self.value() == 1,
            self.pending() == Seq::<u8>::empty(),
            (until as nat) < pow10((MAX_SIZE - 1) as nat),
        ensures
            final(writer)@ == old(writer)@ + output_upto(15 * (until as nat / 15)),
    {
        let mut this = self;
        let cycles: u64 = until / 15;
        proof {
            lemma_fundamental_div_mod(until as int, 15);
            lemma_mod_bound(until as int, 15);
        }
        let mut c: u64 = 0;
        proof {
            this.step.lemma_wf_facts();
            assert(output_upto(0nat) == Seq::<u8>::empty());
            assert(writer@ + this.pending() =~= writer@);
        }
        while c < cycles
            invariant
                this.wf(),
                cycles == until as nat / 15,
                15 * (cycles as nat) <= until as nat,
                (until as nat) < pow10((MAX_SIZE - 1) as nat),
                c <= cycles,
                this.value() == 15 * (c as nat) + 1,
                this.width() == digits_of(this.value()).len(),
                writer@ + this.pending() == old(writer)@ + output_upto(15 * (c as nat)),
                this.pending().len() + cycle_budget(this.width()) <= BUF_SIZE,
            decreases cycles - c,
        {
            let ghost v = this.value();
            let ghost pend_in = this.pending();
            let ghost written_in = writer@;
            proof {
                lemma_mod_multiples_vanish(c as int, 1, 15);
                lemma_small_mod(1, 15);
                assert(v % 15 == 1);
                assert(v + 15 <= pow10((MAX_SIZE - 1) as nat));
            }
            this.next15();
            proof {
                lemma_output_upto_lines(15 * (c as nat), 15);
                assert(this.pending() == pend_in + lines_from(v, 15));
                lemma_concat_associative(written_in, pend_in, lines_from(v, 15));
                lemma_concat_associative(
                    old(writer)@,
                    output_upto(15 * (c as nat)),
                    lines_from(v, 15),
                );
                assert(writer@ + this.pending() == old(writer)@ + output_upto(
                    15 * (c as nat) + 15,
                ));
                lemma_pow10_mono((MAX_SIZE - 1) as nat, MAX_SIZE as nat);
                assert(this.value() < pow10(MAX_SIZE as nat));
                lemma_digits_of_len(this.value(), MAX_SIZE as nat);
            }
            if this.flush_due() {
                this.write_to(writer);
                proof {
                    assert(writer@ + this.pending() =~= writer@);
                }
            }
            c = c + 1;
        }
        this.write_to(writer);
        proof {
            assert(writer@ =~= old(writer)@ + output_upto(15 * (until as nat / 15)));
        }
    }
}

} // verus!
