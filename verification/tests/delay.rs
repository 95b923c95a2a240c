use melter::delay::DelayLine;

#[test]
fn new_line_holds_the_fill() {
    let line: DelayLine<i32> = DelayLine::new(4, 9);
    assert_eq!(line.len(), 4);
    for age in 0..4 {
        assert_eq!(line.tap(age), Some(9));
    }
    assert_eq!(line.tap(4), None);
    assert_eq!(line.tap(usize::MAX), None);
}

#[test]
fn push_returns_the_sample_given_len_pushes_before() {
    let mut line: DelayLine<i32> = DelayLine::new(3, 0);
    assert_eq!(line.push(1), 0);
    assert_eq!(line.push(2), 0);
    assert_eq!(line.push(3), 0);
    assert_eq!(line.push(4), 1);
    assert_eq!(line.push(5), 2);
    assert_eq!(line.push(6), 3);
    assert_eq!(line.push(7), 4);
    assert_eq!(line.len(), 3);
}

#[test]
fn tap_counts_back_from_the_newest_sample() {
    let mut line: DelayLine<char> = DelayLine::new(3, '-');
    let _ = line.push('a');
    assert_eq!(line.tap(0), Some('a'));
    assert_eq!(line.tap(1), Some('-'));
    assert_eq!(line.tap(2), Some('-'));
    let _ = line.push('b');
    let _ = line.push('c');
    let _ = line.push('d');
    assert_eq!(line.tap(0), Some('d'));
    assert_eq!(line.tap(1), Some('c'));
    assert_eq!(line.tap(2), Some('b'));
    assert_eq!(line.tap(3), None);
    let _ = line.push('e');
    let _ = line.push('f');
    assert_eq!(line.tap(0), Some('f'));
    assert_eq!(line.tap(1), Some('e'));
    assert_eq!(line.tap(2), Some('d'));
}

#[test]
fn a_line_without_length_hands_each_sample_straight_back() {
    let mut line: DelayLine<i32> = DelayLine::new(0, 0);
    assert_eq!(line.len(), 0);
    assert_eq!(line.push(5), 5);
    assert_eq!(line.push(6), 6);
    assert_eq!(line.tap(0), None);
    assert_eq!(line.len(), 0);
    line.reset(1);
    assert_eq!(line.len(), 0);
    assert_eq!(line.push(7), 7);
}

#[test]
fn a_line_of_one_sample_delays_by_one() {
    let mut line: DelayLine<i32> = DelayLine::new(1, -1);
    assert_eq!(line.push(10), -1);
    assert_eq!(line.tap(0), Some(10));
    assert_eq!(line.push(20), 10);
    assert_eq!(line.push(30), 20);
    assert_eq!(line.tap(0), Some(30));
    assert_eq!(line.tap(1), None);
}

#[test]
fn reset_overwrites_every_sample_and_keeps_the_length() {
    let mut line: DelayLine<i32> = DelayLine::new(5, 0);
    for x in 1..=7 {
        let _ = line.push(x);
    }
    line.reset(-3);
    assert_eq!(line.len(), 5);
    for age in 0..5 {
        assert_eq!(line.tap(age), Some(-3));
    }
    assert_eq!(line.push(1), -3);
    assert_eq!(line.tap(0), Some(1));
    assert_eq!(line.tap(4), Some(-3));
}

#[test]
fn a_long_run_slides_through_the_line_in_order() {
    let len = 11;
    let mut line: DelayLine<usize> = DelayLine::new(len, 0);
    for n in 1..=100usize {
        let out = line.push(n);
        assert_eq!(out, if n > len { n - len } else { 0 });
        for age in 0..len {
            assert_eq!(line.tap(age), Some(if n > age { n - age } else { 0 }));
        }
    }
}
