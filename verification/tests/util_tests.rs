use orderbook::util::format_price;
use orderbook::util::price_hash;

#[test]
fn test_price_formatting() {
    assert_eq!(format_price(10000), "$100.00");
    assert_eq!(format_price(12550), "$125.50");
    assert_eq!(format_price(99), "$0.99");
}

#[test]
fn test_price_hash_mixes() {
    assert_eq!(price_hash(1), 0x9E3779B97F4A7C15);
    assert_ne!(price_hash(2), price_hash(3));
}
