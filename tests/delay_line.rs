use delay_line::DelayLine;

#[test]
fn it_delays() {
    let mut delay: DelayLine<f32> = DelayLine::new(3, 1);
    assert_eq!(delay.read(0, 11).to_owned(), 0.0);
    delay.write(0, 1.0);
    delay.write(0, 2.0);
    assert_eq!(delay.read(0, 1).to_owned(), 1.0);
    assert_eq!(delay.read(0, 0).to_owned(), 2.0);
}

#[test]
fn it_is_circular() {
    let mut delay: DelayLine<f32> = DelayLine::new(3, 2);
    delay.write(0, 1.0);
    delay.write(0, 2.0);
    delay.write(0, 3.0);

    delay.write(1, 4.0);
    delay.write(1, 5.0);
    delay.write(1, 6.0);

    assert_eq!(delay.read(0, 2).to_owned(), 1.0);
    assert_eq!(delay.read(1, 2).to_owned(), 4.0);
}

#[test]
fn it_works() {
    let result = 2 + 2;
    assert_eq!(result, 4);
}

#[test]
fn fresh_line_is_silent_everywhere() {
    let delay: DelayLine<f64> = DelayLine::new(4, 3);
    for c in 0..3 {
        for d in 0..20 {
            assert_eq!(*delay.read(c, d), 0.0);
        }
    }
}

#[test]
fn reports_its_dimensions() {
    let delay: DelayLine<f32> = DelayLine::new(5, 2);
    assert_eq!(delay.buf_size(), 5);
    assert_eq!(delay.num_channels(), 2);
}

#[test]
fn recent_writes_read_back_newest_first() {
    let mut delay: DelayLine<f32> = DelayLine::new(4, 1);
    delay.write(0, 1.0);
    delay.write(0, 2.0);
    delay.write(0, 3.0);
    assert_eq!(*delay.read(0, 0), 3.0);
    assert_eq!(*delay.read(0, 1), 2.0);
    assert_eq!(*delay.read(0, 2), 1.0);
    assert_eq!(*delay.read(0, 3), 0.0);
}

#[test]
fn oldest_samples_are_overwritten() {
    let mut delay: DelayLine<f32> = DelayLine::new(3, 1);
    for v in [1.0, 2.0, 3.0, 4.0, 5.0] {
        delay.write(0, v);
    }
    assert_eq!(*delay.read(0, 0), 5.0);
    assert_eq!(*delay.read(0, 1), 4.0);
    assert_eq!(*delay.read(0, 2), 3.0);
}

#[test]
fn delay_is_taken_modulo_capacity() {
    let mut delay: DelayLine<f32> = DelayLine::new(3, 1);
    delay.write(0, 1.0);
    delay.write(0, 2.0);
    delay.write(0, 3.0);
    assert_eq!(*delay.read(0, 3), 3.0);
    assert_eq!(*delay.read(0, 4), 2.0);
    assert_eq!(*delay.read(0, 8), 1.0);
    assert_eq!(*delay.read(0, usize::MAX), *delay.read(0, usize::MAX % 3));
}

#[test]
fn writes_leave_other_channels_alone() {
    let mut delay: DelayLine<f32> = DelayLine::new(2, 3);
    delay.write(1, 7.0);
    delay.write(1, 8.0);
    delay.write(1, 9.0);
    for c in [0, 2] {
        assert_eq!(*delay.read(c, 0), 0.0);
        assert_eq!(*delay.read(c, 1), 0.0);
    }
    assert_eq!(*delay.read(1, 0), 9.0);
    assert_eq!(*delay.read(1, 1), 8.0);
}

#[test]
fn single_slot_line_keeps_only_the_last_sample() {
    let mut delay: DelayLine<f64> = DelayLine::new(1, 2);
    delay.write(0, 1.5);
    delay.write(0, 2.5);
    assert_eq!(*delay.read(0, 0), 2.5);
    assert_eq!(*delay.read(0, 9), 2.5);
    assert_eq!(*delay.read(1, 0), 0.0);
}

#[test]
fn taps_are_the_two_neighbouring_delays() {
    let mut delay: DelayLine<f32> = DelayLine::new(3, 2);
    delay.write(0, 1.0);
    delay.write(0, 2.0);
    delay.write(0, 3.0);
    assert_eq!(delay.read_taps(0, 0), (3.0, 2.0));
    assert_eq!(delay.read_taps(0, 1), (2.0, 1.0));
    assert_eq!(delay.read_taps(0, 2), (1.0, 3.0));
    assert_eq!(delay.read_taps(0, 4), (2.0, 1.0));
    assert_eq!(delay.read_taps(1, 1), (0.0, 0.0));
}

#[test]
fn taps_wrap_at_the_largest_delay() {
    let mut delay: DelayLine<f64> = DelayLine::new(4, 1);
    for v in [1.0, 2.0, 3.0, 4.0] {
        delay.write(0, v);
    }
    // usize::MAX is 3 modulo 4, and usize::MAX + 1 is 0 modulo 4.
    assert_eq!(delay.read_taps(0, usize::MAX), (1.0, 4.0));
}
