use sheepdog::field::{Dog, Sheep};
use sheepdog::utility::{Utility, UtilityMap, SCALE};

#[test]
fn one_move_is_a_million_parts() {
    assert_eq!(SCALE, 1_000_000);
    assert_eq!(Utility::moves(0), Utility::Finite(0));
    assert_eq!(Utility::moves(1), Utility::Finite(1_000_000));
    assert_eq!(Utility::moves(8), Utility::Finite(8_000_000));
    assert_eq!(
        Utility::moves(18_446_744_073_709),
        Utility::Finite(18_446_744_073_709_000_000)
    );
    assert_eq!(Utility::moves(18_446_744_073_710), Utility::Infinite);
}

#[test]
fn sums_saturate_at_the_infinite_value() {
    assert_eq!(
        Utility::Finite(2).plus(Utility::Finite(3)),
        Utility::Finite(5)
    );
    assert_eq!(
        Utility::Finite(2).plus(Utility::Infinite),
        Utility::Infinite
    );
    assert_eq!(
        Utility::Infinite.plus(Utility::Finite(3)),
        Utility::Infinite
    );
    assert_eq!(Utility::Infinite.plus(Utility::Infinite), Utility::Infinite);
    assert_eq!(
        Utility::Finite(u64::MAX).plus(Utility::Finite(0)),
        Utility::Finite(u64::MAX)
    );
    assert_eq!(
        Utility::Finite(u64::MAX).plus(Utility::Finite(1)),
        Utility::Infinite
    );
    assert_eq!(
        Utility::Finite(u64::MAX - 4).plus(Utility::Finite(4)),
        Utility::Finite(u64::MAX)
    );
}

#[test]
fn means_round_down() {
    assert_eq!(Utility::Finite(7).shared_among(2), Utility::Finite(3));
    assert_eq!(
        Utility::Finite(14_000_000).shared_among(2),
        Utility::Finite(7_000_000)
    );
    assert_eq!(Utility::Finite(10).shared_among(4), Utility::Finite(2));
    assert_eq!(Utility::Finite(3).shared_among(4), Utility::Finite(0));
    assert_eq!(Utility::Finite(9).shared_among(1), Utility::Finite(9));
    assert_eq!(Utility::Infinite.shared_among(3), Utility::Infinite);
}

#[test]
fn discount_is_ninety_nine_hundredths() {
    assert_eq!(
        Utility::Finite(7_000_000).discounted(),
        Utility::Finite(6_930_000)
    );
    assert_eq!(Utility::Finite(100).discounted(), Utility::Finite(99));
    assert_eq!(Utility::Finite(101).discounted(), Utility::Finite(99));
    assert_eq!(Utility::Finite(199).discounted(), Utility::Finite(197));
    assert_eq!(Utility::Finite(1).discounted(), Utility::Finite(0));
    assert_eq!(Utility::Finite(0).discounted(), Utility::Finite(0));
    assert_eq!(
        Utility::Finite(u64::MAX).discounted(),
        Utility::Finite(18_262_276_632_972_456_098)
    );
    assert_eq!(Utility::Infinite.discounted(), Utility::Infinite);
}

#[test]
fn every_finite_value_is_below_the_infinite_one() {
    assert!(Utility::Finite(1).is_below(Utility::Finite(2)));
    assert!(!Utility::Finite(2).is_below(Utility::Finite(2)));
    assert!(!Utility::Finite(3).is_below(Utility::Finite(2)));
    assert!(Utility::Finite(u64::MAX).is_below(Utility::Infinite));
    assert!(!Utility::Infinite.is_below(Utility::Finite(u64::MAX)));
    assert!(!Utility::Infinite.is_below(Utility::Infinite));
}

#[test]
fn distance_between_values() {
    assert_eq!(
        Utility::Finite(5).apart(Utility::Finite(8)),
        Utility::Finite(3)
    );
    assert_eq!(
        Utility::Finite(8).apart(Utility::Finite(5)),
        Utility::Finite(3)
    );
    assert_eq!(
        Utility::Finite(8).apart(Utility::Finite(8)),
        Utility::Finite(0)
    );
    assert_eq!(
        Utility::Infinite.apart(Utility::Infinite),
        Utility::Finite(0)
    );
    assert_eq!(
        Utility::Infinite.apart(Utility::Finite(8)),
        Utility::Infinite
    );
    assert_eq!(
        Utility::Finite(8).apart(Utility::Infinite),
        Utility::Infinite
    );
}

#[test]
fn products_saturate_at_the_infinite_value() {
    assert_eq!(Utility::Finite(3).times(200), Utility::Finite(600));
    assert_eq!(Utility::Finite(0).times(200), Utility::Finite(0));
    assert_eq!(
        Utility::Finite(u64::MAX / 200).times(200),
        Utility::Finite(u64::MAX / 200 * 200)
    );
    assert_eq!(
        Utility::Finite(u64::MAX / 200 + 1).times(200),
        Utility::Infinite
    );
    assert_eq!(Utility::Infinite.times(0), Utility::Infinite);
}

#[test]
fn empty_table_knows_nothing() {
    let map = UtilityMap::new(7);
    assert_eq!(map.size(), 7);
    assert_eq!(map.get(Sheep::at(0, 0), Dog::at(1, 1)), None);
    assert_eq!(map.get(Sheep::at(-1, 0), Dog::at(1, 1)), None);
}

#[test]
fn table_returns_what_was_put_in() {
    let mut map = UtilityMap::new(7);
    assert!(map.insert(Sheep::at(1, 2), Dog::at(3, 4), Utility::Finite(5)));
    assert!(map.insert(Sheep::at(3, 4), Dog::at(1, 2), Utility::Infinite));
    assert!(map.insert(Sheep::at(0, 0), Dog::at(0, 0), Utility::Finite(0)));
    assert_eq!(
        map.get(Sheep::at(1, 2), Dog::at(3, 4)),
        Some(Utility::Finite(5))
    );
    assert_eq!(
        map.get(Sheep::at(3, 4), Dog::at(1, 2)),
        Some(Utility::Infinite)
    );
    assert_eq!(
        map.get(Sheep::at(0, 0), Dog::at(0, 0)),
        Some(Utility::Finite(0))
    );
    assert_eq!(map.get(Sheep::at(2, 1), Dog::at(3, 4)), None);
    assert_eq!(map.get(Sheep::at(1, 2), Dog::at(4, 3)), None);
    assert!(map.insert(Sheep::at(1, 2), Dog::at(3, 4), Utility::Finite(9)));
    assert_eq!(
        map.get(Sheep::at(1, 2), Dog::at(3, 4)),
        Some(Utility::Finite(9))
    );
    assert_eq!(map.size(), 7);
}

#[test]
fn table_takes_no_placement_off_the_field() {
    let mut map = UtilityMap::new(7);
    assert!(!map.insert(Sheep::at(7, 0), Dog::at(0, 0), Utility::Finite(1)));
    assert!(!map.insert(Sheep::at(0, -1), Dog::at(0, 0), Utility::Finite(1)));
    assert!(!map.insert(Sheep::at(0, 0), Dog::at(0, 7), Utility::Finite(1)));
    assert!(!map.insert(Sheep::at(0, 0), Dog::at(-3, 2), Utility::Finite(1)));
    assert!(map.insert(Sheep::at(6, 6), Dog::at(6, 6), Utility::Finite(1)));
    assert!(map.insert(Sheep::at(2, 2), Dog::at(0, 0), Utility::Finite(1)));
    assert_eq!(map.get(Sheep::at(7, 0), Dog::at(0, 0)), None);
    assert_eq!(map.get(Sheep::at(0, 0), Dog::at(0, 7)), None);
}

#[test]
fn placements_are_not_mixed_up() {
    let mut map = UtilityMap::new(7);
    let mut count = 0u64;
    for sx in 0..7 {
        for sy in 0..7 {
            for dx in 0..7 {
                for dy in 0..7 {
                    assert!(map.insert(Sheep::at(sx, sy), Dog::at(dx, dy), Utility::Finite(count)));
                    count += 1;
                }
            }
        }
    }
    let mut expected = 0u64;
    for sx in 0..7 {
        for sy in 0..7 {
            for dx in 0..7 {
                for dy in 0..7 {
                    assert_eq!(
                        map.get(Sheep::at(sx, sy), Dog::at(dx, dy)),
                        Some(Utility::Finite(expected))
                    );
                    expected += 1;
                }
            }
        }
    }
}
