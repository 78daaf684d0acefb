use fizzbuzz::engine::{Looper, Mode};
use fizzbuzz::naive::naive_to_buf;

#[test]
fn safe_opt_it_works() {
    let mut naive_buf: Vec<u8> = vec![];
    let mut opt_buf: Vec<u8> = vec![];
    let until = 2000;

    naive_to_buf(&mut naive_buf, until).unwrap();
    let looper = Looper::new(Mode::Checked);
    looper.run_until(&mut opt_buf, until);

    assert_ne!(naive_buf.len(), 0);
    assert_ne!(opt_buf.len(), 0);
    let len = std::cmp::min(naive_buf.len(), opt_buf.len());
    assert_eq!(naive_buf[..len], opt_buf[..len]);
}

#[test]
fn unsafe_opt_it_works() {
    let mut naive_buf: Vec<u8> = vec![];
    let mut opt_buf: Vec<u8> = vec![];
    let until = 2000;

    naive_to_buf(&mut naive_buf, until).unwrap();
    let looper = Looper::new(Mode::Unchecked);
    looper.run_until(&mut opt_buf, until);

    assert_ne!(naive_buf.len(), 0);
    assert_ne!(opt_buf.len(), 0);
    let len = std::cmp::min(naive_buf.len(), opt_buf.len());
    assert_eq!(naive_buf[..len], opt_buf[..len]);
}

#[test]
fn bounded_at_16_emits_exactly_one_cycle() {
    let mut out: Vec<u8> = vec![];
    let looper = Looper::new(Mode::Checked);
    looper.run_until(&mut out, 16);
    assert_eq!(
        out,
        b"1\n2\nFizz\n4\nBuzz\nFizz\n7\n8\nFizz\nBuzz\n11\nFizz\n13\n14\nFizzBuzz\n".to_vec()
    );
}

#[test]
fn bounded_at_15_also_emits_one_cycle() {
    let mut out: Vec<u8> = vec![];
    let looper = Looper::new(Mode::Unchecked);
    looper.run_until(&mut out, 15);
    assert_eq!(
        out,
        b"1\n2\nFizz\n4\nBuzz\nFizz\n7\n8\nFizz\nBuzz\n11\nFizz\n13\n14\nFizzBuzz\n".to_vec()
    );
}

#[test]
fn bounded_below_one_cycle_emits_nothing() {
    let mut out: Vec<u8> = vec![];
    let looper = Looper::new(Mode::Checked);
    looper.run_until(&mut out, 14);
    assert_eq!(out, Vec::<u8>::new());
}

#[test]
fn one_cycle_tokens_in_order() {
    let mut looper = Looper::new(Mode::Checked);
    looper.next15();
    let mut out: Vec<u8> = vec![];
    looper.write_to(&mut out);
    let text = String::from_utf8(out).unwrap();
    let tokens: Vec<&str> = text.lines().collect();
    assert_eq!(
        tokens,
        vec![
            "1", "2", "Fizz", "4", "Buzz", "Fizz", "7", "8", "Fizz", "Buzz", "11", "Fizz", "13",
            "14", "FizzBuzz"
        ]
    );
}

#[test]
fn second_cycle_starts_at_16() {
    let mut looper = Looper::new(Mode::Unchecked);
    looper.next15();
    looper.next15();
    let mut out: Vec<u8> = vec![];
    looper.write_to(&mut out);
    let text = String::from_utf8(out).unwrap();
    let tokens: Vec<&str> = text.lines().collect();
    assert_eq!(tokens.len(), 30);
    assert_eq!(tokens[15], "16");
    assert_eq!(tokens[17], "Fizz");
    assert_eq!(tokens[19], "Buzz");
    assert_eq!(tokens[29], "FizzBuzz");
}

#[test]
fn fresh_engine_cycle_estimate() {
    // 15 newlines + 16 Fizz bytes + 8 Buzz bytes + 8 FizzBuzz bytes +
    // one 1-digit number + seven numbers of up to 2 digits
    let looper = Looper::new(Mode::Checked);
    assert_eq!(looper.next_loop_size(), 62);
    assert!(!looper.flush_due());
}

#[test]
fn engine_matches_reference_across_flushes() {
    // enough numbers that the 8 KiB cursor flushes several times mid-run
    let mut naive_buf: Vec<u8> = vec![];
    let mut opt_buf: Vec<u8> = vec![];
    let until = 10000;

    naive_to_buf(&mut naive_buf, until).unwrap();
    let looper = Looper::new(Mode::Unchecked);
    looper.run_until(&mut opt_buf, until);

    let len = std::cmp::min(naive_buf.len(), opt_buf.len());
    assert_eq!(naive_buf[..len], opt_buf[..len]);
}
