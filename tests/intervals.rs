use egui_plot_ticks::{nice_step, Axis, Coord, HPlacement, Interval, Length, Placement, VPlacement};

fn fin(v: i64) -> Coord {
    Coord::Finite(v)
}

#[test]
fn nice_step_snaps_mantissa() {
    assert_eq!(nice_step(1), 1);
    assert_eq!(nice_step(3), 2);
    assert_eq!(nice_step(4), 5);
    assert_eq!(nice_step(8), 10);
    assert_eq!(nice_step(14), 10);
    assert_eq!(nice_step(15), 20);
    assert_eq!(nice_step(34), 20);
    assert_eq!(nice_step(35), 50);
    assert_eq!(nice_step(74), 50);
    assert_eq!(nice_step(75), 100);
    assert_eq!(nice_step(149), 100);
    assert_eq!(nice_step(7_499), 5_000);
}

#[test]
fn nice_step_is_idempotent_on_round_steps() {
    let mut p: u64 = 1;
    for _ in 0..18 {
        for m in [1u64, 2, 5, 10] {
            let s = m * p;
            assert_eq!(nice_step(s), s as u128);
            assert_eq!(nice_step(nice_step(s) as u64), nice_step(s));
        }
        p *= 10;
    }
}

#[test]
fn nice_step_mantissa_is_one_two_or_five() {
    for s in 1u64..5000 {
        let n = nice_step(s);
        let mut p: u128 = 1;
        while p * 10 <= n {
            p *= 10;
        }
        let m = n / p;
        assert!(n % p == 0 && (m == 1 || m == 2 || m == 5), "step {s} gave {n}");
    }
}

#[test]
fn nice_step_of_largest_input() {
    assert_eq!(nice_step(u64::MAX), 20_000_000_000_000_000_000);
}

#[test]
fn interval_new_ignores_order() {
    assert_eq!(Interval::new(fin(5), fin(3)), Interval::new(fin(3), fin(5)));
    let iv = Interval::new(fin(5), fin(3));
    assert_eq!(iv.start, fin(3));
    assert_eq!(iv.end, fin(5));
    assert_eq!(Interval::new(Coord::PosInf, fin(0)), Interval::new(fin(0), Coord::PosInf));
    assert_eq!(Interval::closed(fin(-2), fin(-7)), Interval::new(fin(-7), fin(-2)));
}

#[test]
fn interval_unbounded_constructors() {
    assert_eq!(Interval::below(fin(4)), Interval { start: Coord::NegInf, end: fin(4) });
    assert_eq!(Interval::above(fin(4)), Interval { start: fin(4), end: Coord::PosInf });
    assert_eq!(Interval::all(), Interval { start: Coord::NegInf, end: Coord::PosInf });
}

#[test]
fn interval_length() {
    assert_eq!(Interval::new(fin(3), fin(10)).len(), Length::Finite(7));
    assert_eq!(Interval::new(fin(i64::MIN), fin(i64::MAX)).len(), Length::Finite(u64::MAX));
    assert_eq!(Interval { start: fin(9), end: fin(2) }.len(), Length::Finite(0));
    assert_eq!(Interval::below(fin(0)).len(), Length::Infinite);
    assert_eq!(Interval::above(fin(0)).len(), Length::Infinite);
    assert_eq!(Interval::all().len(), Length::Infinite);
    assert_eq!(Interval { start: Coord::PosInf, end: Coord::NegInf }.len(), Length::Infinite);
    assert_eq!(Interval { start: Coord::NegInf, end: Coord::NegInf }.len(), Length::Finite(0));
    assert_eq!(Interval { start: Coord::PosInf, end: Coord::PosInf }.len(), Length::Finite(0));
}

#[test]
fn interval_empty_and_contains() {
    assert!(Interval::new(fin(5), fin(5)).is_empty());
    assert!(!Interval::new(fin(5), fin(6)).is_empty());
    let iv = Interval::new(fin(-3), fin(8));
    assert!(iv.contains(-3));
    assert!(iv.contains(8));
    assert!(iv.contains(0));
    assert!(!iv.contains(9));
    assert!(!iv.contains(-4));
    assert!(Interval::all().contains(i64::MIN));
    assert!(Interval::below(fin(2)).contains(-1_000_000));
    assert!(!Interval::below(fin(2)).contains(3));
}

#[test]
fn placements_convert_both_ways() {
    assert_eq!(Placement::from(HPlacement::Left), Placement::LeftBottom);
    assert_eq!(Placement::from(HPlacement::Right), Placement::RightTop);
    assert_eq!(Placement::from(VPlacement::Top), Placement::RightTop);
    assert_eq!(Placement::from(VPlacement::Bottom), Placement::LeftBottom);
    assert_eq!(HPlacement::from(Placement::LeftBottom), HPlacement::Left);
    assert_eq!(HPlacement::from(Placement::RightTop), HPlacement::Right);
    assert_eq!(VPlacement::from(Placement::LeftBottom), VPlacement::Bottom);
    assert_eq!(VPlacement::from(Placement::RightTop), VPlacement::Top);
    assert_eq!(usize::from(Axis::X), 0);
    assert_eq!(usize::from(Axis::Y), 1);
}
