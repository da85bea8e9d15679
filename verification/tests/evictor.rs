use mc_oblivious_ram::branch::BranchCheckout;
use mc_oblivious_ram::evictor::{CircuitOramNonobliviousEvict, Evictor, PathOramEvict};
use mc_oblivious_ram::oblivious::Meta;
use mc_oblivious_ram::rng::{NodeRng, SystemRng};
use mc_oblivious_ram::storage::{HeapStorage, ORAMStorage};
use rand_core::OsRng;

const SIZE: usize = 64;
const Z: usize = 2;

fn meta(leaf_num: u64, block_num: u64) -> Meta {
    Meta { leaf_num, block_num }
}

/// A value that tells which block it belongs to.
fn value(block_num: u64) -> [u8; SIZE] {
    [block_num as u8; SIZE]
}

type Branch = Vec<[(u64, u64); Z]>;

/// Checks that every value goes with its metadata, and returns the metadata.
fn read_buckets(data: &[[[u8; SIZE]; Z]], metas: &[[Meta; Z]]) -> Branch {
    let mut result = Vec::new();
    for (values, bucket) in data.iter().zip(metas) {
        let mut pairs = [(0, 0); Z];
        for i in 0..Z {
            if bucket[i].leaf_num != 0 {
                assert_eq!(values[i], value(bucket[i].block_num));
                pairs[i] = (bucket[i].leaf_num, bucket[i].block_num);
            }
        }
        result.push(pairs);
    }
    result
}

/// Storage of a tree of height 3 with the given buckets on the branch of a leaf.
fn storage_with(leaf: u64, branch: &Branch) -> HeapStorage<SIZE, Z> {
    let mut storage = HeapStorage::new(16);
    let mut data = vec![[[0u8; SIZE]; Z]; 4];
    let mut metas = vec![[meta(0, 0); Z]; 4];
    storage.checkout(leaf, &mut data, &mut metas);
    for j in 0..4 {
        for i in 0..Z {
            metas[j][i] = meta(branch[j][i].0, branch[j][i].1);
            data[j][i] = value(branch[j][i].1);
        }
    }
    storage.checkin(leaf, &mut data, &mut metas);
    storage
}

fn branch_in(storage: &mut HeapStorage<SIZE, Z>, leaf: u64) -> Branch {
    let mut data = vec![[[0u8; SIZE]; Z]; 4];
    let mut metas = vec![[meta(0, 0); Z]; 4];
    storage.checkout(leaf, &mut data, &mut metas);
    let result = read_buckets(&data, &metas);
    storage.checkin(leaf, &mut data, &mut metas);
    result
}

/// Evicts `stash` to the branch of a leaf; returns the stash and the branch.
fn evict<E: Evictor<SIZE, Z, 1>>(
    evictor: &E,
    leaf: u64,
    stash: &[(u64, u64)],
    branch: &Branch,
) -> (Vec<(u64, u64)>, Branch) {
    let mut storage = storage_with(leaf, branch);
    let mut checkout = BranchCheckout::default();
    checkout.checkout(&mut storage, leaf);
    let mut stash_data: Vec<[u8; SIZE]> = stash.iter().map(|s| value(s.1)).collect();
    let mut stash_meta: Vec<Meta> = stash.iter().map(|s| meta(s.0, s.1)).collect();
    evictor.evict_from_stash_to_branch(&mut stash_data, &mut stash_meta, &mut checkout);
    checkout.checkin(&mut storage);
    let mut rest = Vec::new();
    for (data, m) in stash_data.iter().zip(&stash_meta) {
        if m.leaf_num != 0 {
            assert_eq!(*data, value(m.block_num));
            rest.push((m.leaf_num, m.block_num));
        } else {
            rest.push((0, 0));
        }
    }
    (rest, branch_in(&mut storage, leaf))
}

const NONE: (u64, u64) = (0, 0);

#[test]
fn path_eviction_packs_and_empties_the_stash() {
    let evictor = PathOramEvict::new(SystemRng::new(OsRng));
    let branch = vec![
        [NONE, NONE],
        [NONE, NONE],
        [NONE, NONE],
        [(8, 1), (12, 2)],
    ];
    let stash = [(9, 3), (8, 4), (15, 5), NONE, (10, 6), (8, 7)];
    let (rest, after) = evict(&evictor, 8, &stash, &branch);
    assert_eq!(rest, vec![NONE; 6]);
    assert_eq!(
        after,
        vec![[(8, 1), (8, 4)], [(9, 3), (8, 7)], [(10, 6), NONE], [(15, 5), (12, 2)]]
    );
}

#[test]
fn path_eviction_leaves_what_has_no_room() {
    let evictor = PathOramEvict::new(SystemRng::new(OsRng));
    let branch = vec![
        [NONE, NONE],
        [NONE, NONE],
        [NONE, NONE],
        [(12, 1), NONE],
    ];
    let stash = [(13, 2), (14, 3), (15, 4)];
    let (rest, after) = evict(&evictor, 8, &stash, &branch);
    assert_eq!(rest, vec![NONE, (14, 3), (15, 4)]);
    assert_eq!(
        after,
        vec![[NONE, NONE], [NONE, NONE], [NONE, NONE], [(12, 1), (13, 2)]]
    );
}

#[test]
fn path_evictor_chooses_leaves() {
    let mut evictor = PathOramEvict::new(SystemRng::new(OsRng));
    for height in [0u32, 1, 5, 63] {
        let leaves: [u64; 7] =
            <PathOramEvict<SystemRng> as Evictor<SIZE, Z, 7>>::get_branches_to_evict(
                &mut evictor,
                u64::MAX,
                height,
                8,
            );
        for leaf in leaves {
            assert_eq!(63 - leaf.leading_zeros(), height);
        }
    }
}

/// A generator that draws the leaves from the last to the first.
struct Descending {
    next: u64,
}

impl NodeRng for Descending {
    fn random_child_at_height(&mut self, _node: u64, _tree_height: u32) -> u64 {
        self.next -= 1;
        self.next + 1
    }
}

#[test]
fn path_evictor_chooses_what_is_drawn() {
    let mut evictor = PathOramEvict::new(Descending { next: 31 });
    for (iteration, expected) in [(0, [31, 30, 29]), (0, [28, 27, 26]), (9, [25, 24, 23])] {
        let leaves = <PathOramEvict<Descending> as Evictor<SIZE, Z, 3>>::get_branches_to_evict(
            &mut evictor,
            iteration,
            4,
            iteration,
        );
        assert_eq!(leaves, expected);
    }
}

#[test]
fn circuit_eviction_takes_the_deepest_block() {
    let evictor = CircuitOramNonobliviousEvict::new();
    // Block 2 can go to the leaf, block 1 to the root only.
    let branch = vec![
        [NONE, NONE],
        [NONE, NONE],
        [NONE, NONE],
        [(12, 1), (8, 2)],
    ];
    let (rest, after) = evict(&evictor, 8, &[(9, 3), (8, 4)], &branch);
    // Block 2 goes to the leaf from three buckets above; what follows starts
    // at the root's bucket, for which block 4 is the deepest of the stash.
    assert_eq!(rest, vec![(9, 3), NONE]);
    assert_eq!(
        after,
        vec![[(8, 2), NONE], [NONE, NONE], [NONE, NONE], [(12, 1), (8, 4)]]
    );
}

#[test]
fn circuit_eviction_prefers_the_branch_to_the_stash() {
    let evictor = CircuitOramNonobliviousEvict::new();
    let branch = vec![
        [NONE, (8, 9)],
        [NONE, (8, 1)],
        [NONE, NONE],
        [NONE, NONE],
    ];
    let (rest, after) = evict(&evictor, 8, &[(8, 2), (8, 3)], &branch);
    // Block 1 travels one bucket, and bucket 1 is the next one that is looked
    // at; a block from the stash ends the eviction.
    assert_eq!(rest, vec![NONE, (8, 3)]);
    assert_eq!(
        after,
        vec![[(8, 1), (8, 9)], [(8, 2), NONE], [NONE, NONE], [NONE, NONE]]
    );
}

#[test]
fn circuit_eviction_resumes_at_the_distance_travelled() {
    let evictor = CircuitOramNonobliviousEvict::new();
    // Bucket 0 is full. Block 3 moves from bucket 3 to bucket 1, a distance of
    // 2: bucket 2 is looked at next, and filled from bucket 3.
    let branch = vec![
        [(8, 1), (8, 2)],
        [NONE, (9, 7)],
        [NONE, (10, 8)],
        [(9, 3), (11, 4)],
    ];
    let (rest, after) = evict(&evictor, 8, &[NONE], &branch);
    assert_eq!(rest, vec![NONE]);
    assert_eq!(
        after,
        vec![
            [(8, 1), (8, 2)],
            [(9, 3), (9, 7)],
            [(11, 4), (10, 8)],
            [NONE, NONE],
        ]
    );
}

#[test]
fn circuit_eviction_takes_one_block_that_fits() {
    let evictor = CircuitOramNonobliviousEvict::new();
    let full = [(8, 20), (8, 21)];
    // Only the root has room.
    let branch = vec![full, full, full, [(8, 22), NONE]];
    let (rest, after) = evict(&evictor, 8, &[(15, 1), (9, 2), (12, 3)], &branch);
    assert_eq!(rest, vec![(15, 1), NONE, (12, 3)]);
    assert_eq!(after, vec![full, full, full, [(8, 22), (9, 2)]]);
    // Where there is no room, nothing is taken.
    let branch = vec![full; 4];
    let (rest, after) = evict(&evictor, 8, &[(15, 1), (9, 2)], &branch);
    assert_eq!(rest, vec![(15, 1), (9, 2)]);
    assert_eq!(after, branch);
}

#[test]
fn circuit_turns_pass_every_node_once() {
    let mut evictor = CircuitOramNonobliviousEvict::new();
    for height in 0..5 {
        for start in [0, 5, 22] {
            let mut seen = vec![0; 1 << height];
            for turn in start..start + (1 << height) {
                let leaves: [u64; 1] =
                    <CircuitOramNonobliviousEvict as Evictor<SIZE, Z, 1>>::get_branches_to_evict(
                        &mut evictor,
                        turn,
                        4,
                        16,
                    );
                let node = leaves[0] >> (4 - height);
                seen[node as usize - (1 << height)] += 1;
            }
            assert_eq!(seen, vec![1; 1 << height]);
        }
    }
}

#[test]
fn circuit_eviction_of_nothing_changes_nothing() {
    let evictor = CircuitOramNonobliviousEvict::new();
    let branch = vec![[NONE; Z]; 4];
    let (rest, after) = evict(&evictor, 8, &[NONE, NONE], &branch);
    assert_eq!(rest, vec![NONE, NONE]);
    assert_eq!(after, branch);
}

#[test]
fn circuit_turns_choose_every_leaf_once() {
    let mut evictor = CircuitOramNonobliviousEvict::new();
    let mut seen = vec![0; 16];
    for iteration in 5..13 {
        let leaves: [u64; 2] =
            <CircuitOramNonobliviousEvict as Evictor<SIZE, Z, 2>>::get_branches_to_evict(
                &mut evictor,
                iteration,
                4,
                16,
            );
        for leaf in leaves {
            seen[leaf as usize - 16] += 1;
        }
    }
    assert_eq!(seen, vec![1; 16]);
}

#[test]
fn circuit_turns_in_a_tree_of_one_node() {
    let mut evictor = CircuitOramNonobliviousEvict::new();
    let leaves: [u64; 3] =
        <CircuitOramNonobliviousEvict as Evictor<SIZE, Z, 3>>::get_branches_to_evict(
            &mut evictor,
            41,
            0,
            1,
        );
    assert_eq!(leaves, [1, 1, 1]);
}

#[test]
fn test_deterministic_oram_get_branches_to_evict() {
    const NUMBER_OF_BRANCHES_TO_EVICT: usize = 2;
    let mut evictor = CircuitOramNonobliviousEvict::new();
    let leaf_array = <CircuitOramNonobliviousEvict as Evictor<
        1024,
        4,
        NUMBER_OF_BRANCHES_TO_EVICT,
    >>::get_branches_to_evict(&mut evictor, 0, 3, 8);
    assert_eq!(leaf_array[0], 8);
    assert_eq!(leaf_array[1], 12);
    let leaf_array2 = <CircuitOramNonobliviousEvict as Evictor<
        1024,
        4,
        NUMBER_OF_BRANCHES_TO_EVICT,
    >>::get_branches_to_evict(&mut evictor, 1, 3, 8);
    assert_eq!(leaf_array2[0], 10);
    assert_eq!(leaf_array2[1], 14);
    let leaf_array3 = <CircuitOramNonobliviousEvict as Evictor<
        1024,
        4,
        NUMBER_OF_BRANCHES_TO_EVICT,
    >>::get_branches_to_evict(&mut evictor, 2, 3, 8);
    assert_eq!(leaf_array3[0], 9);
    assert_eq!(leaf_array3[1], 13);
    let leaf_array4 = <CircuitOramNonobliviousEvict as Evictor<
        1024,
        4,
        NUMBER_OF_BRANCHES_TO_EVICT,
    >>::get_branches_to_evict(&mut evictor, 3, 3, 8);
    assert_eq!(leaf_array4[0], 11);
    assert_eq!(leaf_array4[1], 15);
}
