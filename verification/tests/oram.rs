use mc_oblivious_ram::branch::BranchCheckout;
use mc_oblivious_ram::evictor::{CircuitOramNonobliviousEvict, Evictor, PathOramEvict};
use mc_oblivious_ram::oblivious::Meta;
use mc_oblivious_ram::path_oram::{valid_size, PathORAM};
use mc_oblivious_ram::position_map::{PositionMap, ScanningPositionMap};
use mc_oblivious_ram::rng::{NodeRng, SystemRng};
use mc_oblivious_ram::storage::{HeapStorage, ORAMStorage};
use rand_core::OsRng;
use std::cell::RefCell;
use std::rc::Rc;

/// A generator whose draws can be repeated.
#[derive(Clone)]
struct SeededRng {
    state: u64,
}

impl SeededRng {
    fn next(&mut self) -> u64 {
        self.state ^= self.state << 13;
        self.state ^= self.state >> 7;
        self.state ^= self.state << 17;
        self.state
    }
}

impl NodeRng for SeededRng {
    fn random_child_at_height(&mut self, node: u64, tree_height: u32) -> u64 {
        let bits = tree_height - (63 - node.leading_zeros());
        (node << bits) | (self.next() & ((1 << bits) - 1))
    }
}

type Oram<const VALUE_SIZE: usize, const Z: usize, const N: usize, E> = PathORAM<
    VALUE_SIZE,
    Z,
    N,
    HeapStorage<VALUE_SIZE, Z>,
    ScanningPositionMap<SeededRng>,
    SeededRng,
    E,
>;

fn make<const VALUE_SIZE: usize, const Z: usize, const N: usize, E: Evictor<VALUE_SIZE, Z, N>>(
    size: u64,
    stash_size: usize,
    seed: u64,
    evictor: E,
) -> Oram<VALUE_SIZE, Z, N, E> {
    let height = Oram::<VALUE_SIZE, Z, N, E>::tree_height(size);
    PathORAM::new(
        size,
        stash_size,
        HeapStorage::new(2 << height),
        ScanningPositionMap::new(size, height, SeededRng { state: seed }),
        SeededRng { state: seed + 1 },
        evictor,
    )
}

/// Reads and writes at random, and compares with an array.
fn compare_with_an_array<
    const VALUE_SIZE: usize,
    const Z: usize,
    const N: usize,
    E: Evictor<VALUE_SIZE, Z, N>,
>(
    size: u64,
    seed: u64,
    evictor: E,
    rounds: u32,
) {
    let mut oram = make::<VALUE_SIZE, Z, N, E>(size, 32, seed, evictor);
    assert_eq!(oram.len(), size);
    let mut array = vec![[0u8; VALUE_SIZE]; size as usize];
    let mut rng = SeededRng { state: seed + 2 };
    for _ in 0..rounds {
        let key = rng.next() % size;
        let byte = rng.next() as u8;
        let at = rng.next() as usize % VALUE_SIZE;
        assert!(oram.stash_has_room(key));
        let seen = oram.access(key, |value: &mut [u8; VALUE_SIZE]| {
            let before = *value;
            value[at] = byte;
            before
        });
        assert_eq!(seen, array[key as usize]);
        array[key as usize][at] = byte;
        assert!(oram.stash_size() <= 32);
    }
    for key in 0..size {
        assert!(oram.stash_has_room(key));
        assert_eq!(oram.access(key, |value: &mut [u8; VALUE_SIZE]| *value), array[key as usize]);
    }
}

#[test]
fn path_oram_is_an_array() {
    for seed in [3, 17, 29] {
        let evictor = PathOramEvict::new(SeededRng { state: seed + 3 });
        compare_with_an_array::<128, 4, 0, _>(64, seed, evictor, 2000);
    }
}

#[test]
fn path_oram_with_more_branches_is_an_array() {
    let evictor = PathOramEvict::new(SeededRng { state: 9 });
    compare_with_an_array::<64, 2, 3, _>(128, 5, evictor, 2000);
}

#[test]
fn circuit_oram_is_an_array() {
    for seed in [3, 17, 29] {
        let evictor = CircuitOramNonobliviousEvict::new();
        compare_with_an_array::<64, 4, 2, _>(64, seed, evictor, 2000);
    }
}

#[test]
fn small_orams_are_arrays() {
    compare_with_an_array::<64, 4, 1, _>(1, 7, CircuitOramNonobliviousEvict::new(), 50);
    compare_with_an_array::<64, 4, 1, _>(2, 7, CircuitOramNonobliviousEvict::new(), 50);
    compare_with_an_array::<64, 4, 1, _>(4, 7, CircuitOramNonobliviousEvict::new(), 50);
}

#[test]
fn an_oram_with_the_generator_of_the_system() {
    let height = PathORAM::<
        64,
        4,
        1,
        HeapStorage<64, 4>,
        ScanningPositionMap<SystemRng>,
        SystemRng,
        PathOramEvict<SystemRng>,
    >::tree_height(16);
    assert_eq!(height, 2);
    let mut oram: PathORAM<64, 4, 1, HeapStorage<64, 4>, _, _, _> = PathORAM::new(
        16,
        20,
        HeapStorage::new(8),
        ScanningPositionMap::new(16, height, SystemRng::new(OsRng)),
        SystemRng::new(OsRng),
        PathOramEvict::new(SystemRng::new(OsRng)),
    );
    for key in 0..16 {
        assert_eq!(oram.access(key, |value: &mut [u8; 64]| value[63]), 0);
        oram.access(key, |value: &mut [u8; 64]| value[63] = key as u8 + 1);
    }
    for key in 0..16 {
        assert_eq!(oram.access(key, |value: &mut [u8; 64]| value[63]), key as u8 + 1);
    }
}

#[test]
fn the_height_of_the_tree() {
    fn height<const Z: usize>(size: u64) -> u32 {
        Oram::<64, Z, 1, CircuitOramNonobliviousEvict>::tree_height(size)
    }
    assert_eq!(height::<4>(1), 0);
    assert_eq!(height::<4>(2), 0);
    assert_eq!(height::<4>(4), 0);
    assert_eq!(height::<4>(8), 1);
    assert_eq!(height::<4>(1024), 8);
    assert_eq!(height::<2>(1024), 9);
    assert_eq!(height::<1>(1024), 10);
    assert_eq!(height::<3>(1024), 8);
    assert_eq!(height::<5>(1024), 7);
    assert_eq!(height::<4>(1 << 63), 61);
}

#[test]
fn values_are_zero_at_first() {
    let mut oram = make::<128, 4, 1, _>(32, 16, 11, CircuitOramNonobliviousEvict::new());
    assert_eq!(oram.stash_size(), 0);
    for key in (0..32).rev() {
        assert_eq!(oram.access(key, |value: &mut [u8; 128]| *value), [0u8; 128]);
    }
}

#[test]
fn the_value_does_not_depend_on_the_leaves() {
    for new_pos in 8..16 {
        let mut oram = make::<64, 4, 1, _>(32, 16, 11, CircuitOramNonobliviousEvict::new());
        oram.access_at(5, new_pos, |value: &mut [u8; 64]| value[0] = 42);
        oram.access_at(6, 23 - new_pos, |value: &mut [u8; 64]| value[0] = 43);
        assert_eq!(oram.access_at(5, 8, |value: &mut [u8; 64]| value[0]), 42);
        assert_eq!(oram.access_at(6, 9, |value: &mut [u8; 64]| value[0]), 43);
        assert_eq!(oram.access_at(7, 10, |value: &mut [u8; 64]| value[0]), 0);
    }
}

#[test]
fn a_stash_without_slots_has_no_room() {
    let oram = make::<64, 4, 1, _>(8, 0, 11, CircuitOramNonobliviousEvict::new());
    assert!(!oram.stash_has_room(3));
}

/// An evictor that moves nothing.
struct Idle {}

impl Evictor<64, 1, 0> for Idle {
    fn evict_from_stash_to_branch(
        &self,
        _stash_data: &mut [[u8; 64]],
        _stash_meta: &mut [Meta],
        _branch: &mut BranchCheckout<64, 1>,
    ) {
    }

    fn get_branches_to_evict(&mut self, _: u64, _: u32, _: u64) -> [u64; 0] {
        []
    }
}

#[test]
fn a_full_stash_has_room_for_its_own_blocks_only() {
    let mut oram = make::<64, 1, 0, _>(8, 3, 11, Idle {});
    for key in [2, 5, 7] {
        assert!(oram.stash_has_room(key));
        oram.access(key, |value: &mut [u8; 64]| value[1] = key as u8);
    }
    assert_eq!(oram.stash_size(), 3);
    for key in 0..8 {
        assert_eq!(oram.stash_has_room(key), [2, 5, 7].contains(&key));
    }
    for key in [7, 2, 5] {
        assert_eq!(oram.access(key, |value: &mut [u8; 64]| value[1]), key as u8);
    }
    assert_eq!(oram.stash_size(), 3);
}

#[derive(Clone, Copy, Debug, PartialEq)]
enum Call {
    Checkout(u64, usize),
    Checkin(u64, usize),
}

/// What is asked when branches of height 3 are checked out and in.
fn visits(leaves: &[u64]) -> Vec<Call> {
    leaves.iter().flat_map(|leaf| [Call::Checkout(*leaf, 4), Call::Checkin(*leaf, 4)]).collect()
}

/// Storage that keeps a record of what is asked of it.
struct Recording {
    inner: HeapStorage<64, 4>,
    record: Rc<RefCell<Vec<Call>>>,
}

impl ORAMStorage<64, 4> for Recording {
    fn len(&self) -> u64 {
        self.inner.len()
    }

    fn checkout(&mut self, index: u64, dest: &mut [[[u8; 64]; 4]], dest_meta: &mut [[Meta; 4]]) {
        assert_eq!(dest.len(), dest_meta.len());
        self.record.borrow_mut().push(Call::Checkout(index, dest.len()));
        self.inner.checkout(index, dest, dest_meta)
    }

    fn checkin(&mut self, index: u64, src: &mut [[[u8; 64]; 4]], src_meta: &mut [[Meta; 4]]) {
        assert_eq!(src.len(), src_meta.len());
        self.record.borrow_mut().push(Call::Checkin(index, src.len()));
        self.inner.checkin(index, src, src_meta)
    }
}

/// A generator that draws given nodes, in order.
struct Script {
    nodes: Vec<u64>,
    at: usize,
}

impl Script {
    fn new(nodes: &[u64]) -> Self {
        Script { nodes: nodes.to_vec(), at: 0 }
    }
}

impl NodeRng for Script {
    fn random_child_at_height(&mut self, node: u64, tree_height: u32) -> u64 {
        assert_eq!((node, tree_height), (1, 3));
        self.at += 1;
        self.nodes[self.at - 1]
    }
}

#[test]
fn an_access_touches_its_branches_only() {
    let record = Rc::new(RefCell::new(Vec::new()));
    let mut oram: PathORAM<64, 4, 2, _, _, _, _> = PathORAM::new(
        32,
        8,
        Recording { inner: HeapStorage::new(16), record: record.clone() },
        ScanningPositionMap::new(32, 3, Script::new(&[13, 14, 11])),
        SeededRng { state: 3 },
        CircuitOramNonobliviousEvict::new(),
    );
    // The branch that the block is on comes first, then those of the turns.
    oram.access_at(5, 9, |value: &mut [u8; 64]| value[0] = 42);
    assert_eq!(record.take(), visits(&[13, 8, 12]));
    oram.access_at(5, 15, |value: &mut [u8; 64]| value[0] += 1);
    assert_eq!(record.take(), visits(&[9, 10, 14]));
    assert_eq!(oram.access_at(5, 8, |value: &mut [u8; 64]| value[0]), 43);
    assert_eq!(record.take(), visits(&[15, 9, 13]));
}

#[test]
fn what_storage_is_asked_does_not_depend_on_the_key() {
    // The keys and what is done with the values differ, the leaves do not. In
    // the first array the key is always the same; in the second it never is.
    let mut records = Vec::new();
    for keys in [[7, 7, 7, 7], [0, 31, 4, 19]] {
        let record = Rc::new(RefCell::new(Vec::new()));
        let mut oram: PathORAM<64, 4, 2, _, _, _, _> = PathORAM::new(
            32,
            8,
            Recording { inner: HeapStorage::new(16), record: record.clone() },
            ScanningPositionMap::new(32, 3, Script::new(&[8, 12, 15, 9])),
            Script::new(&[12, 15, 9, 10]),
            PathOramEvict::new(Script::new(&[8, 11, 14, 9, 10, 10, 13, 15])),
        );
        for key in keys {
            oram.access(key, |value: &mut [u8; 64]| value[key as usize] = key as u8);
        }
        records.push(record.take());
    }
    assert_eq!(records[0], records[1]);
    assert_eq!(records[0], visits(&[8, 8, 11, 12, 14, 9, 15, 10, 10, 9, 13, 15]));
}

#[test]
fn a_block_travels_to_the_leaf_that_is_drawn() {
    let record = Rc::new(RefCell::new(Vec::new()));
    let mut oram: PathORAM<64, 4, 0, _, _, _, _> = PathORAM::new(
        32,
        8,
        Recording { inner: HeapStorage::new(16), record: record.clone() },
        ScanningPositionMap::new(32, 3, Script::new(&[8, 8, 8, 8])),
        Script::new(&[13, 10, 11, 9]),
        CircuitOramNonobliviousEvict::new(),
    );
    for (i, leaf) in [8, 13, 10, 11].into_iter().enumerate() {
        let seen = oram.access(6, |value: &mut [u8; 64]| {
            value[0] += 1;
            value[0]
        });
        assert_eq!(seen as usize, i + 1);
        assert_eq!(record.take(), visits(&[leaf]));
    }
}

/// A position map that keeps a record of what is written: the key, the new leaf
/// and the old one.
struct RecordingMap {
    inner: ScanningPositionMap<Script>,
    record: Rc<RefCell<Vec<(u64, u64, u64)>>>,
}

impl PositionMap for RecordingMap {
    fn len(&self) -> u64 {
        self.inner.len()
    }

    fn write(&mut self, key: &u64, new_val: &u64) -> u64 {
        let old_val = self.inner.write(key, new_val);
        self.record.borrow_mut().push((*key, *new_val, old_val));
        old_val
    }
}

#[test]
fn an_access_writes_one_position() {
    let record = Rc::new(RefCell::new(Vec::new()));
    let mut oram: PathORAM<64, 4, 1, HeapStorage<64, 4>, _, _, _> = PathORAM::new(
        32,
        8,
        HeapStorage::new(16),
        RecordingMap {
            inner: ScanningPositionMap::new(32, 3, Script::new(&[11, 8, 14])),
            record: record.clone(),
        },
        Script::new(&[13, 10, 9]),
        CircuitOramNonobliviousEvict::new(),
    );
    for (key, written) in [(6, (6, 13, 11)), (6, (6, 10, 13)), (30, (30, 9, 14))] {
        oram.access(key, |value: &mut [u8; 64]| value[0] += 1);
        assert_eq!(record.take(), vec![written]);
    }
}

#[test]
fn an_access_stashes_one_block_at_most() {
    let mut oram = make::<64, 1, 0, _>(64, 64, 13, CircuitOramNonobliviousEvict::new());
    let mut rng = SeededRng { state: 41 };
    let mut count = 0;
    for _ in 0..500 {
        let key = rng.next() % 64;
        oram.access(key, |value: &mut [u8; 64]| value[0] += 1);
        assert!(oram.stash_size() <= count + 1);
        count = oram.stash_size();
    }
}

#[test]
fn sizes_are_powers_of_two() {
    for k in 0..64 {
        assert!(valid_size(1 << k));
    }
    for size in [0, 3, 5, 6, 7, 12, 1023, 1025, u64::MAX, (1 << 63) + 1] {
        assert!(!valid_size(size));
    }
}

#[test]
fn a_position_map_returns_what_was_written() {
    let mut map = ScanningPositionMap::new(10, 4, SystemRng::new(OsRng));
    assert_eq!(map.len(), 10);
    for key in 0..10 {
        let drawn = map.write(&key, &(16 + key));
        assert!((16..32).contains(&drawn));
    }
    for key in 0..10 {
        assert_eq!(map.write(&key, &(31 - key)), 16 + key);
    }
    for key in 0..10 {
        assert_eq!(map.write(&key, &16), 31 - key);
    }
}
