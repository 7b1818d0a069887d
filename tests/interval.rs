use mpc::interval::Interval;

#[test]
fn test_invert_1() {
    let intervals = vec![
        Interval::new(1, 3),
        Interval::new(5, 6),
        Interval::new(9, 10),
    ];
    assert_eq!(
        Interval::invert(&intervals, 10),
        vec![Interval::new(4, 4), Interval::new(7, 8)]
    );
}

#[test]
fn test_invert_2() {
    let intervals = vec![Interval::new(2, 3)];
    assert_eq!(
        Interval::invert(&intervals, 4),
        vec![Interval::new(1, 1), Interval::new(4, 4)]
    );
}

#[test]
fn test_invert_3() {
    let intervals = vec![Interval::new(2, 3), Interval::new(3, 4)];
    assert_eq!(Interval::invert(&intervals, 4), vec![Interval::new(1, 1)]);
}

#[test]
fn invert_empty_is_whole_range() {
    assert_eq!(Interval::invert(&[], 7), vec![Interval::new(1, 7)]);
}

#[test]
fn invert_twice_gives_back_separated_ranges() {
    let r = vec![Interval::new(2, 3), Interval::new(6, 6), Interval::new(9, 10)];
    let g = Interval::invert(&r, 12);
    assert_eq!(
        g,
        vec![Interval::new(1, 1), Interval::new(4, 5), Interval::new(7, 8), Interval::new(11, 12)]
    );
    assert_eq!(Interval::invert(&g, 12), r);
}

#[test]
fn invert_range_touching_the_end_stops_early() {
    let r = vec![Interval::new(3, 5), Interval::new(5, 5)];
    assert_eq!(Interval::invert(&r, 5), vec![Interval::new(1, 2)]);
}

#[test]
fn invert_at_largest_end() {
    let r = vec![Interval::new(1, u32::MAX)];
    assert_eq!(Interval::invert(&r, u32::MAX), vec![]);
    let r = vec![Interval::new(1, 1)];
    assert_eq!(Interval::invert(&r, u32::MAX), vec![Interval::new(2, u32::MAX)]);
}
