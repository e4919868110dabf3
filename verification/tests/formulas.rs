use datasketches::cpc::flavor_for;
use datasketches::cpc::make_pair;
use datasketches::cpc::row_count;
use datasketches::cpc::window_offset_for;
use datasketches::cpc::Flavor;
use datasketches::hll::bucket_count;
use datasketches::hll::coupon_cap;
use datasketches::hll::make_coupon;
use datasketches::hll::HllMode;
use datasketches::hll::HllType;
use datasketches::sort::insert_rising;
use datasketches::sort::lower_bound;
use datasketches::sort::remove_rising;
use datasketches::table::PairTable;
use datasketches::wire::push_long;
use datasketches::wire::push_wide;
use datasketches::wire::push_word;
use datasketches::wire::read_long;
use datasketches::wire::read_wide;
use datasketches::wire::read_word;

#[test]
fn a_coupon_is_the_value_above_the_address() {
    assert_eq!(make_coupon(0), 39 << 26);
    assert_eq!(make_coupon(u64::MAX), (1 << 26) + 0x3FF_FFFF);
    assert_eq!(make_coupon(1 << 63), 1 << 26);
    assert_eq!(make_coupon(1 << 62), 2 << 26);
    assert_eq!(make_coupon(1 << 26), 38 << 26);
    assert_eq!(make_coupon((1 << 40) + 0x123_4567), (24 << 26) + 0x123_4567);
}

#[test]
fn a_pair_is_the_row_before_the_column() {
    assert_eq!(make_pair(0, 4), 38);
    assert_eq!(make_pair(u64::MAX, 4), 15 * 64);
    assert_eq!(make_pair(u64::MAX, 26), 0x3FF_FFFF * 64);
    assert_eq!(make_pair((1 << 62) + 5, 11), 5 * 64 + 1);
    assert_eq!(make_pair((1 << 26) + 2049, 11), 64 + 37);
}

#[test]
fn the_numbers_of_buckets_are_powers_of_two() {
    assert_eq!(bucket_count(7), 128);
    assert_eq!(bucket_count(21), 2_097_152);
    assert_eq!(row_count(4), 16);
    assert_eq!(row_count(26), 67_108_864);
}

#[test]
fn the_limit_on_coupons_is_three_thirty_seconds_of_the_buckets() {
    assert_eq!(coupon_cap(7), 7);
    assert_eq!(coupon_cap(8), 24);
    assert_eq!(coupon_cap(12), 384);
    assert_eq!(coupon_cap(21), 196_608);
}

#[test]
fn the_flavors_change_at_their_thresholds() {
    assert_eq!(flavor_for(11, 0), Flavor::Empty);
    assert_eq!(flavor_for(11, 1), Flavor::Sparse);
    assert_eq!(flavor_for(11, 191), Flavor::Sparse);
    assert_eq!(flavor_for(11, 192), Flavor::Hybrid);
    assert_eq!(flavor_for(11, 1023), Flavor::Hybrid);
    assert_eq!(flavor_for(11, 1024), Flavor::Pinned);
    assert_eq!(flavor_for(11, 6911), Flavor::Pinned);
    assert_eq!(flavor_for(11, 6912), Flavor::Sliding);
    assert_eq!(window_offset_for(11, 6911), 0);
    assert_eq!(window_offset_for(11, 6912), 1);
    assert_eq!(window_offset_for(11, 8959), 1);
    assert_eq!(window_offset_for(11, 8960), 2);
    assert_eq!(window_offset_for(11, 39 * 2048), 31);
}

#[test]
fn the_codes_name_the_types_and_modes() {
    for (code, tgt_type) in [(0u8, HllType::HLL4), (1, HllType::HLL6), (2, HllType::HLL8)] {
        assert_eq!(tgt_type.code(), code);
        assert_eq!(HllType::from_code(code), Some(tgt_type));
    }
    assert_eq!(HllType::from_code(3), None);
    for (code, mode) in [(0u8, HllMode::List), (1, HllMode::CouponSet), (2, HllMode::Hll)] {
        assert_eq!(mode.code(), code);
        assert_eq!(HllMode::from_code(code), Some(mode));
    }
    assert_eq!(HllMode::from_code(3), None);
    assert_eq!(Flavor::Sliding.code(), 4);
    assert_eq!(Flavor::Empty.code(), 0);
}

#[test]
fn a_table_finds_what_was_put() {
    let mut table = PairTable::new(2, false);
    assert_eq!(table.capacity(), 4);
    for entry in 0..1000u32 {
        assert_eq!(table.put(entry * 7), None);
    }
    assert_eq!(table.len(), 1000);
    assert!(table.capacity() >= 1334);
    for entry in 0..1000u32 {
        assert_eq!(table.find(entry * 7), Some(entry * 7));
        assert_eq!(table.find(entry * 7 + 1), None);
        assert_eq!(table.put(entry * 7), Some(entry * 7));
    }
    assert_eq!(table.len(), 1000);
    let copy = table.clone();
    assert_eq!(copy.len(), 1000);
    let mut seen = 0;
    for i in 0..table.capacity() {
        if table.slot(i) != 0xFFFF_FFFF {
            seen += 1;
        }
    }
    assert_eq!(seen, 1000);
}

#[test]
fn a_table_keyed_by_address_holds_one_entry_for_an_address() {
    let mut table = PairTable::new(2, true);
    assert_eq!(table.put((15 << 26) + 9), None);
    assert_eq!(table.put((16 << 26) + 10), None);
    assert_eq!(table.put((20 << 26) + 9), Some((15 << 26) + 9));
    assert_eq!(table.len(), 2);
    assert_eq!(table.find(9), Some((20 << 26) + 9));
    assert_eq!(table.find(10), Some((16 << 26) + 10));
    assert_eq!(table.find(11), None);
    let mut image: Vec<u8> = Vec::new();
    table.write_entries(&mut image);
    assert_eq!(image.len(), 8);
    let back = PairTable::collect(&image, 0, 2, true, 10).unwrap();
    assert_eq!(back.find(9), Some((20 << 26) + 9));
    assert!(PairTable::collect(&image, 0, 2, true, 1).is_none());
    let mut twice = image.clone();
    twice.extend_from_slice(&image[..4]);
    assert!(PairTable::collect(&twice, 0, 3, true, 10).is_none());
    let mut cells: Vec<u8> = Vec::new();
    table.write_cells(&mut cells);
    assert_eq!(cells.len(), 4 * table.capacity());
    assert_eq!(table.lg_capacity(), 2);
}

#[test]
fn words_are_written_least_significant_byte_first() {
    let mut out: Vec<u8> = vec![0xAA];
    push_word(&mut out, 0x0403_0201);
    push_long(&mut out, 0x0C0B_0A09_0807_0605);
    push_wide(&mut out, 0x1C1B_1A19_1817_1615_1413_1211_100F_0E0D);
    let expected: Vec<u8> = std::iter::once(0xAA).chain(1..=0x1C).collect();
    assert_eq!(out, expected);
    assert_eq!(read_word(&out, 1), 0x0403_0201);
    assert_eq!(read_long(&out, 5), 0x0C0B_0A09_0807_0605);
    assert_eq!(read_wide(&out, 13), 0x1C1B_1A19_1817_1615_1413_1211_100F_0E0D);
}

#[test]
fn a_rising_list_stays_in_order() {
    let mut list: Vec<u32> = Vec::new();
    for x in [5u32, 1, 9, 3, 7, 5, 1] {
        let novel = !list.contains(&x);
        assert_eq!(insert_rising(&mut list, x), novel);
    }
    assert_eq!(list, vec![1, 3, 5, 7, 9]);
    assert_eq!(lower_bound(&list, 0), 0);
    assert_eq!(lower_bound(&list, 5), 2);
    assert_eq!(lower_bound(&list, 6), 3);
    assert_eq!(lower_bound(&list, 10), 5);
    assert!(remove_rising(&mut list, 5));
    assert!(!remove_rising(&mut list, 5));
    assert!(remove_rising(&mut list, 1));
    assert!(remove_rising(&mut list, 9));
    assert_eq!(list, vec![3, 7]);
}
