use friendly::scale::Binary;
use friendly::scale::Decimal;
use friendly::Num;
use friendly::Quantity;
use friendly::Scale;

#[test]
fn test_decimal_quantity() {
    let tq = Quantity::decimal(10);
    assert_eq!(tq.value, Num::from_u64(10));
    assert_eq!(tq.scale, Scale::Auto);
}

#[test]
fn quantity_test_zero() {
    let tq = Quantity::decimal(0);
    assert_eq!(tq.render().as_str(), "0.0000");
}

#[test]
fn test_zero_sfx() {
    let tq = Quantity::decimal(0).suffix("B");
    assert_eq!(tq.render().as_str(), "0.0000 B");
}

#[test]
fn test_zero_sfx_sf() {
    let tq = Quantity::decimal(0).suffix("B").sig_figs(2);
    assert_eq!(tq.render().as_str(), "0.00 B");
}

#[test]
fn test_megawatts() {
    let tq = Quantity::decimal(Num::from_parts(false, 15_250_000, 0)).suffix("W");
    assert_eq!(tq.render().as_str(), "15.25 MW");
}

#[test]
fn test_kibibytes_ps() {
    let tq = Quantity::binary(Num::from_parts(false, 182_421, 0)).suffix("B/s");
    assert_eq!(tq.render().as_str(), "178.1 KiB/s");
}

#[test]
fn quantity_test_small() {
    let tq = Quantity::decimal(Num::from_parts(false, 23477, -6)).scale(Scale::Fixed(
        Decimal::unit(),
    ));
    assert_eq!(tq.render().as_str(), "0.02348");
}

#[test]
fn test_millis() {
    let tq = Quantity::decimal(Num::from_parts(false, 23477, -6)).suffix("s");
    assert_eq!(tq.render().as_str(), "23.48 ms");
}

#[test]
fn test_bytes_helper() {
    assert_eq!(friendly::bytes(13200).render().as_str(), "12.89 KiB");
    assert_eq!(
        friendly::bytes(13200).scale(Scale::<Decimal>::Auto).suffix("B").render().as_str(),
        "13.20 kB"
    );
}

#[test]
fn test_scalar_helper() {
    assert_eq!(friendly::scalar(10324).render().as_str(), "10.32 k");
}

#[test]
fn test_fixed_kilo() {
    let q = Quantity::decimal(10324).scale(Scale::Fixed(Decimal::kilo()));
    assert_eq!(q.render().as_str(), "10.32 k");
}

#[test]
fn test_native_scale() {
    let q = Quantity::decimal(Num::from_parts(false, 15_250_000, 0))
        .scale(Scale::<Decimal>::Native)
        .suffix("W");
    assert_eq!(q.render().as_str(), "15250000 W");
}

#[test]
fn test_integral_unit_native() {
    let q = Quantity::decimal(5).integral(true);
    assert_eq!(q.render().as_str(), "5");
    let q = Quantity::decimal(5000).integral(true);
    assert_eq!(q.render().as_str(), "5.000 k");
}

#[test]
fn test_nan_and_infinities() {
    assert_eq!(Quantity::decimal(Num::nan()).render().as_str(), "NaN");
    assert_eq!(Quantity::decimal(Num::infinity(false)).render().as_str(), "inf");
    assert_eq!(Quantity::decimal(Num::infinity(true)).suffix("B").render().as_str(), "-inf B");
}

#[test]
fn test_negative_value() {
    let q = Quantity::decimal(Num::from_parts(true, 1234, 0));
    assert_eq!(q.render().as_str(), "-1.234 k");
}

#[test]
fn test_no_space() {
    let q = Quantity::decimal(Num::from_parts(false, 1234, 0)).suffix("B").space(false);
    assert_eq!(q.render().as_str(), "1.234kB");
}

#[test]
fn test_render_repeatable() {
    let q = Quantity::binary(Num::from_parts(false, 182_421, 0)).suffix("B/s");
    let a = q.render();
    let b = q.render();
    assert_eq!(a, b);
}

#[test]
fn test_autoscale_boundary_values() {
    assert_eq!(Quantity::decimal(999).render().as_str(), "999.0");
    assert_eq!(Quantity::decimal(1000).render().as_str(), "1.000 k");
    assert_eq!(Quantity::binary(1023).render().as_str(), "1023");
    assert_eq!(Quantity::binary(1024).render().as_str(), "1.000 Ki");
}

#[test]
fn test_fixed_binary_prefix() {
    let q = Quantity::binary(Num::from_u64(5_242_880))
        .scale(Scale::Fixed(Binary::mebi()))
        .suffix("B");
    assert_eq!(q.render().as_str(), "5.000 MiB");
}

#[test]
fn test_fixed_unit_integral_native() {
    let q = Quantity::decimal(42).scale(Scale::Fixed(Decimal::unit())).integral(true);
    assert_eq!(q.render().as_str(), "42");
}
