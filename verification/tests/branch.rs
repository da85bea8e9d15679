use mc_oblivious_ram::branch::BranchCheckout;
use mc_oblivious_ram::oblivious::Meta;
use mc_oblivious_ram::storage::{HeapStorage, ORAMStorage};

const SIZE: usize = 64;
const Z: usize = 2;
const NONE: (u64, u64) = (0, 0);

type Branch = Vec<[(u64, u64); Z]>;

fn meta(leaf_num: u64, block_num: u64) -> Meta {
    Meta { leaf_num, block_num }
}

fn value(block_num: u64) -> [u8; SIZE] {
    [block_num as u8; SIZE]
}

/// Storage of a tree of height 3 with the given buckets on the branch of a leaf.
fn storage_with(leaf: u64, branch: &Branch) -> HeapStorage<SIZE, Z> {
    let mut storage = HeapStorage::new(16);
    let mut data = vec![[[0u8; SIZE]; Z]; 4];
    let mut metas = vec![[meta(0, 0); Z]; 4];
    storage.checkout(leaf, &mut data, &mut metas);
    for j in 0..4 {
        for i in 0..Z {
            metas[j][i] = meta(branch[j][i].0, branch[j][i].1);
            data[j][i] = value(branch[j][i].1);
        }
    }
    storage.checkin(leaf, &mut data, &mut metas);
    storage
}

/// The metadata of the blocks of a branch, each of which has its own value.
fn branch_in(storage: &mut HeapStorage<SIZE, Z>, leaf: u64) -> Branch {
    let mut data = vec![[[0u8; SIZE]; Z]; 4];
    let mut metas = vec![[meta(0, 0); Z]; 4];
    storage.checkout(leaf, &mut data, &mut metas);
    let mut result = vec![[NONE; Z]; 4];
    for j in 0..4 {
        for i in 0..Z {
            if metas[j][i].leaf_num != 0 {
                assert_eq!(data[j][i], value(metas[j][i].block_num));
                result[j][i] = (metas[j][i].leaf_num, metas[j][i].block_num);
            }
        }
    }
    storage.checkin(leaf, &mut data, &mut metas);
    result
}

#[test]
fn storage_is_vacant_at_first() {
    let mut storage: HeapStorage<SIZE, Z> = HeapStorage::new(16);
    assert_eq!(storage.len(), 16);
    for leaf in 8..16 {
        assert_eq!(branch_in(&mut storage, leaf), vec![[NONE; Z]; 4]);
    }
}

#[test]
fn checkout_gives_what_was_checked_in() {
    let branch = vec![[(13, 1), NONE], [(12, 2), (13, 3)], [NONE, NONE], [(8, 4), NONE]];
    let mut storage = storage_with(13, &branch);
    assert_eq!(branch_in(&mut storage, 13), branch);
    // A branch that shares the nodes from the second one upwards.
    let mut other = branch.clone();
    other[0] = [NONE; Z];
    assert_eq!(branch_in(&mut storage, 12), other);
    // One that shares the root alone.
    let mut far = vec![[NONE; Z]; 4];
    far[3] = branch[3];
    assert_eq!(branch_in(&mut storage, 8), far);
}

#[test]
fn checkout_and_checkin_change_nothing() {
    let branch = vec![[(13, 1), NONE], [(12, 2), (13, 3)], [NONE, NONE], [(8, 4), NONE]];
    let mut storage = storage_with(13, &branch);
    let mut checkout = BranchCheckout::default();
    for leaf in [12, 13, 8] {
        checkout.checkout(&mut storage, leaf);
        checkout.checkin(&mut storage);
    }
    // A branch of an inner node is shorter.
    checkout.checkout(&mut storage, 6);
    checkout.checkin(&mut storage);
    assert_eq!(branch_in(&mut storage, 13), branch);
}

#[test]
fn a_block_is_found_in_any_bucket() {
    let branch = vec![[(13, 1), NONE], [(12, 2), (13, 3)], [NONE, NONE], [(8, 4), NONE]];
    for (query, leaf_num) in [(1, 13), (2, 12), (3, 13), (4, 8)] {
        let mut storage = storage_with(13, &branch);
        let mut checkout = BranchCheckout::default();
        checkout.checkout(&mut storage, 13);
        let mut data = [0u8; SIZE];
        let mut m = meta(0, 0);
        checkout.ct_find_and_remove(false, &query, &mut data, &mut m);
        assert_eq!((m.leaf_num, m.block_num), NONE);
        checkout.ct_find_and_remove(true, &query, &mut data, &mut m);
        assert_eq!((m.leaf_num, m.block_num), (leaf_num, query));
        assert_eq!(data, value(query));
        checkout.checkin(&mut storage);
        let mut rest = branch.clone();
        for bucket in rest.iter_mut() {
            for slot in bucket.iter_mut() {
                if slot.1 == query {
                    *slot = NONE;
                }
            }
        }
        assert_eq!(branch_in(&mut storage, 13), rest);
    }
}

#[test]
fn a_block_that_is_not_there_is_not_found() {
    let branch = vec![[(13, 1), NONE], [NONE, NONE], [NONE, NONE], [(8, 4), NONE]];
    let mut storage = storage_with(13, &branch);
    let mut checkout = BranchCheckout::default();
    checkout.checkout(&mut storage, 13);
    let mut data = value(77);
    let mut m = meta(0, 0);
    checkout.ct_find_and_remove(true, &9, &mut data, &mut m);
    assert_eq!((m.leaf_num, m.block_num), NONE);
    assert_eq!(data, value(77));
    checkout.checkin(&mut storage);
    assert_eq!(branch_in(&mut storage, 13), branch);
}

#[test]
fn a_block_is_taken_from_the_first_bucket_that_holds_it() {
    let branch = vec![[(13, 1), NONE], [NONE, (12, 4)], [(13, 4), NONE], [(8, 4), (9, 2)]];
    let mut storage = storage_with(13, &branch);
    let mut checkout = BranchCheckout::default();
    checkout.checkout(&mut storage, 13);
    let mut data = [0u8; SIZE];
    let mut m = meta(0, 0);
    checkout.ct_find_and_remove(true, &4, &mut data, &mut m);
    assert_eq!((m.leaf_num, m.block_num), (12, 4));
    assert_eq!(data, value(4));
    // The destination holds a block now: nothing more is taken.
    checkout.ct_find_and_remove(true, &2, &mut data, &mut m);
    assert_eq!((m.leaf_num, m.block_num), (12, 4));
    checkout.checkin(&mut storage);
    assert_eq!(
        branch_in(&mut storage, 13),
        vec![[(13, 1), NONE], [NONE, NONE], [(13, 4), NONE], [(8, 4), (9, 2)]]
    );
}

#[test]
fn a_block_goes_as_low_as_it_may() {
    // The bucket in which a block for each leaf ends up, in the branch of 13.
    let lowest = [(8, 3), (11, 3), (12, 1), (13, 0), (14, 2), (15, 2), (6, 1), (1, 3)];
    for (leaf_num, bucket) in lowest {
        let mut storage = HeapStorage::new(16);
        let mut checkout = BranchCheckout::default();
        checkout.checkout(&mut storage, 13);
        let mut m = meta(leaf_num, 5);
        checkout.ct_insert(true, &value(5), &mut m);
        assert_eq!((m.leaf_num, m.block_num), (0, 5));
        checkout.checkin(&mut storage);
        let mut expected = vec![[NONE; Z]; 4];
        expected[bucket][0] = (leaf_num, 5);
        assert_eq!(branch_in(&mut storage, 13), expected);
    }
}

#[test]
fn a_block_goes_up_where_there_is_no_room() {
    let branch = vec![[(13, 1), (13, 2)], [(12, 3), NONE], [NONE, NONE], [(8, 4), (8, 5)]];
    let mut storage = storage_with(13, &branch);
    let mut checkout = BranchCheckout::default();
    checkout.checkout(&mut storage, 13);
    let mut m = meta(13, 6);
    checkout.ct_insert(true, &value(6), &mut m);
    assert_eq!(m.leaf_num, 0);
    // The root is full, and these blocks may stand nowhere else.
    let mut n = meta(9, 7);
    checkout.ct_insert(true, &value(7), &mut n);
    assert_eq!((n.leaf_num, n.block_num), (9, 7));
    let mut o = meta(13, 8);
    checkout.ct_insert(false, &value(8), &mut o);
    assert_eq!((o.leaf_num, o.block_num), (13, 8));
    checkout.checkin(&mut storage);
    let mut expected = branch.clone();
    expected[1][1] = (13, 6);
    assert_eq!(branch_in(&mut storage, 13), expected);
}

fn pack(leaf: u64, branch: &Branch) -> Branch {
    let mut storage = storage_with(leaf, branch);
    let mut checkout = BranchCheckout::default();
    checkout.checkout(&mut storage, leaf);
    checkout.pack();
    checkout.checkin(&mut storage);
    branch_in(&mut storage, leaf)
}

#[test]
fn packing_moves_blocks_towards_the_leaf() {
    let branch = vec![
        [NONE, NONE],
        [(12, 1), (13, 2)],
        [(13, 3), (14, 4)],
        [(13, 5), (12, 6)],
    ];
    let packed = pack(13, &branch);
    assert_eq!(
        packed,
        vec![
            [(13, 2), (13, 3)],
            [(12, 1), (13, 5)],
            [(12, 6), (14, 4)],
            [NONE, NONE],
        ]
    );
    assert_eq!(pack(13, &packed), packed);
}

#[test]
fn packing_a_branch_of_one_bucket_changes_nothing() {
    let mut storage: HeapStorage<SIZE, Z> = HeapStorage::new(2);
    let mut checkout = BranchCheckout::default();
    checkout.checkout(&mut storage, 1);
    let mut m = meta(1, 3);
    checkout.ct_insert(true, &value(3), &mut m);
    checkout.pack();
    checkout.checkin(&mut storage);
    let mut data = [[[0u8; SIZE]; Z]];
    let mut metas = [[meta(0, 0); Z]];
    storage.checkout(1, &mut data, &mut metas);
    assert_eq!((metas[0][0].leaf_num, metas[0][0].block_num), (1, 3));
    assert_eq!(data[0][0], value(3));
    assert_eq!(metas[0][1].leaf_num, 0);
}
