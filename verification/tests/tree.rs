use mc_oblivious_ram::rng::{NodeRng, SystemRng};
use mc_oblivious_ram::tree::{bit_reverse, power_of_two};
use rand_core::OsRng;

#[test]
fn bits_are_reversed() {
    assert_eq!(bit_reverse(0, 0), 0);
    assert_eq!(bit_reverse(1, 1), 1);
    assert_eq!(bit_reverse(1, 3), 4);
    assert_eq!(bit_reverse(6, 3), 3);
    assert_eq!(bit_reverse(0b1011, 4), 0b1101);
    assert_eq!(bit_reverse(0b1_0011, 4), 0b1100);
    assert_eq!(bit_reverse(1, 64), 1 << 63);
    assert_eq!(bit_reverse(0x0123_4567_89ab_cdef, 64), 0x0123_4567_89ab_cdefu64.reverse_bits());
}

#[test]
fn reversing_twice_gives_the_number_back() {
    for x in 0..64 {
        assert_eq!(bit_reverse(bit_reverse(x, 6), 6), x);
    }
}

#[test]
fn powers_of_two() {
    assert_eq!(power_of_two(0), 1);
    assert_eq!(power_of_two(10), 1024);
    assert_eq!(power_of_two(63), 1 << 63);
}

#[test]
fn random_children_are_below_the_node() {
    let mut rng = SystemRng::new(OsRng);
    for height in 0..40 {
        for _ in 0..10 {
            let node = rng.random_child_at_height(1, height);
            assert_eq!(63 - node.leading_zeros(), height);
        }
    }
    for height in 20..40 {
        let node = rng.random_child_at_height(10, height);
        assert_eq!(node >> (height - 3), 10);
    }
    assert_eq!(rng.random_child_at_height(77, 6), 77);
}
