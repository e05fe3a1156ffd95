use friendly::scale::Binary;
use friendly::scale::Decimal;
use friendly::scale::Prefix;
use friendly::scale::PrefixFamily;
use friendly::Num;

#[test]
fn binary_test_multipliers() {
    assert_eq!(Binary::unit().multiplier(), Num::from_u64(1));
    assert_eq!(Binary::kibi().multiplier(), Num::from_u64(1024));
    assert_eq!(Binary::mebi().multiplier(), Num::from_u64(1024 * 1024));
    assert_eq!(Binary::gibi().multiplier(), Num::from_u64(1024 * 1024 * 1024));
}

#[test]
fn decimal_test_multipliers() {
    assert_eq!(Decimal::unit().multiplier(), Num::from_u64(1));
    assert_eq!(Decimal::kilo().multiplier(), Num::from_u64(1000));
    assert_eq!(Decimal::mega().multiplier(), Num::from_u64(1_000_000));
    assert_eq!(Decimal::giga().multiplier(), Num::from_u64(1_000_000_000));
}

#[test]
fn test_unit_adjust() {
    assert_eq!(Decimal::unit().scale_value(&Num::from_u64(1250)), Num::from_u64(1250));
}

#[test]
fn test_kilo_adjust() {
    assert_eq!(
        Decimal::kilo().scale_value(&Num::from_u64(1250)),
        Num::from_parts(false, 125, -2)
    );
}

#[test]
fn test_autoscale_round_trip() {
    // 13200 under the binary family scales to 12.890625 with the Ki prefix;
    // multiplied back by 1024 that is exactly 13200.
    let (sv, p) = Binary::autoscale(&Num::from_u64(13200));
    assert_eq!(p.exponent(), 10);
    assert_eq!(sv, Num::from_parts(false, 12_890_625, -6));
    // 15250000 under the decimal family scales to 15.25 times ten to the six.
    let (sv, p) = Decimal::autoscale(&Num::from_u64(15_250_000));
    assert_eq!(p.exponent(), 6);
    assert_eq!(sv, Num::from_parts(false, 1525, -2));
}

#[test]
fn test_autoscale_small_value() {
    // Below the smallest prefix the family keeps its smallest prefix even
    // though the scaled magnitude stays below one.
    let (sv, p) = Decimal::autoscale(&Num::from_parts(false, 5, -28));
    assert_eq!(p.exponent(), -24);
    assert_eq!(sv, Num::from_parts(false, 5, -4));
}

#[test]
fn test_autoscale_zero_passthrough() {
    let (sv, p) = Decimal::autoscale(&Num::from_u64(0));
    assert_eq!(p.exponent(), 0);
    assert_eq!(p.label(), "");
    assert_eq!(sv, Num::from_u64(0));
}

#[test]
fn test_all_prefixes_ordered() {
    let ds = Decimal::all_prefixes();
    assert_eq!(ds.len(), 17);
    for w in ds.windows(2) {
        assert!(w[0].exponent() < w[1].exponent());
    }
    let bs = Binary::all_prefixes();
    assert_eq!(bs.len(), 9);
    for w in bs.windows(2) {
        assert!(w[0].exponent() < w[1].exponent());
    }
}

#[test]
fn test_prefix_labels() {
    assert_eq!(Decimal::kilo().label(), "k");
    assert_eq!(Decimal::unit().label(), "");
    assert_eq!(Binary::kibi().label(), "Ki");
    assert_eq!(Decimal::new("k", 3), Decimal::kilo());
    assert_eq!(Binary::new("Ki", 10), Binary::kibi());
}

#[test]
fn test_prefix_tables() {
    // The decimal table: seventeen prefixes at exponents -24..24 in steps
    // of three, with the documented labels.
    let ds = Decimal::all_prefixes();
    let labels = [
        "y", "z", "a", "f", "p", "n", "\u{03bc}", "m", "", "k", "M", "G", "T", "P", "E", "Z", "Y",
    ];
    assert_eq!(ds.len(), 17);
    for (i, p) in ds.iter().enumerate() {
        assert_eq!(p.exponent(), -24 + 3 * i as i32);
        assert_eq!(p.label(), labels[i]);
    }
    // The binary table: nine prefixes at exponents 0..80 in steps of ten.
    let bs = Binary::all_prefixes();
    let blabels = ["", "Ki", "Mi", "Gi", "Ti", "Pi", "Ei", "Zi", "Yi"];
    assert_eq!(bs.len(), 9);
    for (i, p) in bs.iter().enumerate() {
        assert_eq!(p.exponent(), 10 * i as i32);
        assert_eq!(p.label(), blabels[i]);
    }
}

#[test]
fn test_autoscale_picks_table_member() {
    // The chosen prefix is always an entry of the family table, and when
    // nothing fits the table's first entry is the fallback.
    let (_, p) = Binary::autoscale(&Num::from_u64(13200));
    let table = Binary::all_prefixes();
    assert!(table.iter().any(|q| q == &p));
    let (_, p) = Decimal::autoscale(&Num::from_parts(false, 5, -28));
    let table = Decimal::all_prefixes();
    assert_eq!(&p, &table[0]);
}
