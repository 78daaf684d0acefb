use fizzbuzz::counter::Decimal;
use fizzbuzz::cursor::{Cursor, CursorOverflow, BUF_SIZE};
use fizzbuzz::naive::{naive_to_buf, push_line};

fn counter_text(d: &Decimal) -> String {
    let mut out: Vec<u8> = vec![];
    d.write_to(&mut out);
    assert_eq!(out.last(), Some(&b'\n'));
    out.pop();
    String::from_utf8(out).unwrap()
}

#[test]
fn counter_starts_at_one() {
    let d = Decimal::new();
    assert_eq!(counter_text(&d), "1");
}

#[test]
fn counter_matches_formatting_for_first_values() {
    let mut d = Decimal::new();
    for k in 0u64..300 {
        assert_eq!(counter_text(&d), format!("{}", 1 + k));
        d.inc();
    }
}

#[test]
fn counter_digit_boundaries() {
    let mut d = Decimal::new();
    let mut value: u64 = 1;
    for boundary in [10u64, 100, 1000, 10000] {
        while value < boundary - 1 {
            d.inc();
            value += 1;
        }
        assert_eq!(counter_text(&d), format!("{}", boundary - 1));
        d.inc();
        value += 1;
        assert_eq!(counter_text(&d), format!("{}", boundary));
        assert_eq!(d.digit_count() as u64, boundary.ilog10() as u64 + 1);
    }
}

#[test]
fn cursor_round_trip() {
    let mut c = Cursor::new();
    c.write(b"1\n");
    c.write(b"Fizz\n");
    c.write_checked(b"Buzz\n").unwrap();
    assert_eq!(c.get_ref(), b"1\nFizz\nBuzz\n".to_vec());
    assert_eq!(c.position(), 12);
    c.set_pos(0);
    assert_eq!(c.get_ref(), Vec::<u8>::new());
    c.write(b"7\n");
    assert_eq!(c.get_ref(), b"7\n".to_vec());
}

#[test]
fn cursor_checked_write_refuses_overflow() {
    let mut c = Cursor::new();
    let big = vec![b'x'; BUF_SIZE - 1];
    c.write_checked(&big).unwrap();
    assert_eq!(c.write_checked(b"ab"), Err(CursorOverflow));
    // the refused write left the contents alone
    assert_eq!(c.get_ref(), big);
    // and a write that just fits is still accepted
    assert_eq!(c.write_checked(b"a"), Ok(()));
    assert_eq!(c.position(), BUF_SIZE);
}

#[test]
fn push_line_tokens() {
    let cases: [(u64, &[u8]); 8] = [
        (1, b"1\n"),
        (2, b"2\n"),
        (3, b"Fizz\n"),
        (5, b"Buzz\n"),
        (10, b"Buzz\n"),
        (15, b"FizzBuzz\n"),
        (98, b"98\n"),
        (123456788, b"123456788\n"),
    ];
    for (i, expected) in cases {
        let mut out: Vec<u8> = vec![];
        push_line(&mut out, i);
        assert_eq!(out, expected.to_vec());
    }
}

#[test]
fn naive_to_buf_first_lines() {
    let mut out: Vec<u8> = vec![];
    naive_to_buf(&mut out, 7).unwrap();
    assert_eq!(out, b"1\n2\nFizz\n4\nBuzz\nFizz\n".to_vec());
}

#[test]
fn naive_to_buf_zero_and_one_write_nothing() {
    let mut out: Vec<u8> = vec![];
    naive_to_buf(&mut out, 0).unwrap();
    assert_eq!(out, Vec::<u8>::new());
    naive_to_buf(&mut out, 1).unwrap();
    assert_eq!(out, Vec::<u8>::new());
}
