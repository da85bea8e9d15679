use mc_oblivious_ram::details::{ct_find_and_remove, ct_insert};
use mc_oblivious_ram::oblivious::{meta_is_vacant, meta_set_vacant, Meta};

const SIZE: usize = 128;

fn meta(leaf_num: u64, block_num: u64) -> Meta {
    Meta { leaf_num, block_num }
}

fn pair(m: &Meta) -> (u64, u64) {
    (m.leaf_num, m.block_num)
}

fn pairs(row: &[Meta]) -> Vec<(u64, u64)> {
    row.iter().map(pair).collect()
}

fn value(seed: u8) -> [u8; SIZE] {
    let mut v = [0u8; SIZE];
    for (i, byte) in v.iter_mut().enumerate() {
        *byte = seed.wrapping_add(i as u8);
    }
    v
}

#[test]
fn vacancy_is_a_zero_leaf() {
    assert!(meta_is_vacant(&meta(0, 5)));
    assert!(!meta_is_vacant(&meta(5, 0)));
    assert!(!meta_is_vacant(&meta(1 << 63, 0)));
}

#[test]
fn set_vacant_keeps_the_block_number() {
    let mut m = meta(9, 5);
    meta_set_vacant(false, &mut m);
    assert_eq!(pair(&m), (9, 5));
    meta_set_vacant(true, &mut m);
    assert_eq!(pair(&m), (0, 5));
}

#[test]
fn insert_takes_the_first_vacant_slot() {
    let mut data = [value(1), value(2), value(3)];
    let mut row = [meta(8, 1), meta(0, 2), meta(0, 3)];
    let mut src = meta(9, 7);
    ct_insert(true, &value(50), &mut src, &mut data, &mut row);
    assert_eq!(pair(&src), (0, 7));
    assert_eq!(pairs(&row), vec![(8, 1), (9, 7), (0, 3)]);
    assert_eq!(data, [value(1), value(50), value(3)]);
}

#[test]
fn insert_without_condition_changes_nothing() {
    let mut data = [value(1), value(2)];
    let mut row = [meta(0, 1), meta(0, 2)];
    let mut src = meta(9, 7);
    ct_insert(false, &value(50), &mut src, &mut data, &mut row);
    assert_eq!(pair(&src), (9, 7));
    assert_eq!(pairs(&row), vec![(0, 1), (0, 2)]);
    assert_eq!(data, [value(1), value(2)]);
}

#[test]
fn insert_of_a_vacant_source_changes_nothing() {
    let mut data = [value(1)];
    let mut row = [meta(0, 1)];
    let mut src = meta(0, 7);
    ct_insert(true, &value(50), &mut src, &mut data, &mut row);
    assert_eq!(pair(&src), (0, 7));
    assert_eq!(pairs(&row), vec![(0, 1)]);
    assert_eq!(data, [value(1)]);
}

#[test]
fn insert_into_a_full_row_changes_nothing() {
    let mut data = [value(1), value(2)];
    let mut row = [meta(4, 1), meta(5, 2)];
    let mut src = meta(9, 7);
    ct_insert(true, &value(50), &mut src, &mut data, &mut row);
    assert_eq!(pair(&src), (9, 7));
    assert_eq!(pairs(&row), vec![(4, 1), (5, 2)]);
    assert_eq!(data, [value(1), value(2)]);
}

#[test]
fn find_takes_the_first_match_only() {
    let mut data = [value(1), value(2), value(3), value(4)];
    // The first slot has the number, but is vacant.
    let mut row = [meta(0, 7), meta(8, 6), meta(9, 7), meta(10, 7)];
    let mut dest = meta(0, 0);
    let mut dest_data = [0u8; SIZE];
    ct_find_and_remove(true, &7, &mut dest_data, &mut dest, &mut data, &mut row);
    assert_eq!(pair(&dest), (9, 7));
    assert_eq!(dest_data, value(3));
    assert_eq!(pairs(&row), vec![(0, 7), (8, 6), (0, 7), (10, 7)]);
    assert_eq!(data, [value(1), value(2), value(3), value(4)]);
}

#[test]
fn find_without_condition_or_match_changes_nothing() {
    let mut data = [value(1), value(2)];
    let mut row = [meta(8, 6), meta(9, 7)];
    let mut dest = meta(0, 4);
    let mut dest_data = value(99);
    ct_find_and_remove(false, &7, &mut dest_data, &mut dest, &mut data, &mut row);
    ct_find_and_remove(true, &5, &mut dest_data, &mut dest, &mut data, &mut row);
    assert_eq!(pair(&dest), (0, 4));
    assert_eq!(dest_data, value(99));
    assert_eq!(pairs(&row), vec![(8, 6), (9, 7)]);
}

#[test]
fn find_into_a_destination_that_is_not_vacant_changes_nothing() {
    let mut data = [[0xb; SIZE]];
    let mut row = [meta(4, 7)];
    let mut dest = meta(6, 3);
    let mut dest_data = [0xa; SIZE];
    ct_find_and_remove(true, &7, &mut dest_data, &mut dest, &mut data, &mut row);
    assert_eq!(pair(&dest), (6, 3));
    assert_eq!(dest_data, [0xa; SIZE]);
    assert_eq!(pairs(&row), vec![(4, 7)]);
    assert_eq!(data, [[0xb; SIZE]]);
}

#[test]
fn what_was_inserted_is_found() {
    let mut data = [value(1), value(2), value(3)];
    let mut row = [meta(8, 1), meta(0, 2), meta(11, 3)];
    let mut src = meta(9, 7);
    ct_insert(true, &value(50), &mut src, &mut data, &mut row);
    let mut dest = meta(0, 0);
    let mut dest_data = [0u8; SIZE];
    ct_find_and_remove(true, &7, &mut dest_data, &mut dest, &mut data, &mut row);
    assert_eq!(pair(&dest), (9, 7));
    assert_eq!(dest_data, value(50));
    assert_eq!(pairs(&row), vec![(8, 1), (0, 7), (11, 3)]);
}
