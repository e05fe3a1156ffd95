use friendly::sigfig::sigscale;
use friendly::Num;

#[test]
fn sigfig_test_zero() {
    let (v, prec) = sigscale(&Num::from_u64(0), 4);
    assert_eq!(v, Num::from_u64(0));
    assert_eq!(prec, 4);
}

#[test]
fn test_one() {
    let (v, prec) = sigscale(&Num::from_u64(1), 4);
    assert_eq!(v, Num::from_u64(1));
    assert_eq!(prec, 3);
}

#[test]
fn test_two_digits() {
    let (v, prec) = sigscale(&Num::from_parts(false, 153234, -4), 4);
    assert_eq!(v, Num::from_parts(false, 1532, -2));
    assert_eq!(prec, 2);
}

#[test]
fn sigfig_test_small() {
    let (v, prec) = sigscale(&Num::from_parts(false, 315772, -9), 2);
    assert_eq!(v, Num::from_parts(false, 32, -5));
    assert_eq!(prec, 5);
}

#[test]
fn test_zero_passthrough_any_figures() {
    for n in [0u64, 1, 2, 4, 9, 100] {
        let (v, prec) = sigscale(&Num::from_u64(0), n);
        assert_eq!(v, Num::from_u64(0));
        assert_eq!(prec, n);
    }
    let (v, prec) = sigscale(&Num::nan(), 4);
    assert_eq!(v, Num::nan());
    assert_eq!(prec, 4);
}

#[test]
fn test_round_half_away() {
    // 23.477 at four figures rounds the final five upward: 23.48.
    let (v, prec) = sigscale(&Num::from_parts(false, 23477, -3), 4);
    assert_eq!(v, Num::from_parts(false, 2348, -2));
    assert_eq!(prec, 2);
    // 0.15 at one figure: half rounds away from zero, to 0.2.
    let (v, prec) = sigscale(&Num::from_parts(false, 15, -2), 1);
    assert_eq!(v, Num::from_parts(false, 2, -1));
    assert_eq!(prec, 1);
}

#[test]
fn test_figures_fewer_than_integer_digits() {
    // 15234 at two figures: rounded to 15000, shown with no fraction digits.
    let (v, prec) = sigscale(&Num::from_u64(15234), 2);
    assert_eq!(v, Num::from_u64(15000));
    assert_eq!(prec, 0);
}

#[test]
fn test_render_fixed_rounds() {
    assert_eq!(Num::from_parts(false, 22314, -3).render_fixed(2).as_str(), "22.31");
    assert_eq!(Num::from_parts(true, 405, -2).render_fixed(1).as_str(), "-4.1");
    assert_eq!(Num::from_u64(7).render_fixed(0).as_str(), "7");
}

#[test]
fn test_render_native() {
    assert_eq!(Num::from_u64(13200).render_native().as_str(), "13200");
    assert_eq!(Num::from_parts(false, 23477, -6).render_native().as_str(), "0.023477");
    assert_eq!(Num::from_parts(true, 5, -1).render_native().as_str(), "-0.5");
}

#[test]
fn test_carry_lengthens_span() {
    // Rounding 999.95 to four figures carries all the way up: the result
    // is 1000 and the precision, taken from the unrounded value, still
    // asks for one fraction digit, so a fifth digit is displayed.
    let (v, prec) = sigscale(&Num::from_parts(false, 99995, -2), 4);
    assert_eq!(v, Num::from_u64(1000));
    assert_eq!(prec, 1);
    assert_eq!(v.render_fixed(prec), "1000.0");
}
