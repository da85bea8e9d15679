//! Comparisons and conditional moves whose timing and memory accesses do not
//! depend on the values at hand, and the metadata of a block.
//!
//! A condition is a `bool`. Code that is to be oblivious negates it with `!`,
//! and otherwise hands it to the functions here only: it does not branch on it.
use aligned_cmov::subtle::{Choice, ConstantTimeEq, ConstantTimeLess};
use aligned_cmov::typenum::{U16, U64};
use aligned_cmov::{A64Bytes, A8Bytes, AsNeSlice, CMov};
use vstd::prelude::*;

verus! {

/// The number of bytes that are moved at a time.
pub const LINE: usize = 64;

/// What is stored beside every block: the leaf towards which the block may
/// travel, and the number of the block.
///
/// A metadata whose `leaf_num` is 0 is vacant: it and the data beside it hold
/// nothing and can be overwritten.
#[derive(Clone, Copy)]
pub struct Meta {
    pub leaf_num: u64,
    pub block_num: u64,
}

/// Whether two numbers are equal.
///
/// Calls `subtle::ConstantTimeEq::ct_eq` of `u64`.
#[verifier::external_body]
pub(crate) fn ct_eq(a: u64, b: u64) -> (equal: bool)
    ensures
        equal == (a == b),
{
    a.ct_eq(&b).into()
}

/// Whether `a` is less than `b`.
///
/// Calls `subtle::ConstantTimeLess::ct_lt` of `u64`.
#[verifier::external_body]
pub(crate) fn ct_lt(a: u64, b: u64) -> (less: bool)
    ensures
        less == (a < b),
{
    a.ct_lt(&b).into()
}

/// Whether both conditions hold; both are evaluated.
///
/// Calls `BitAnd::bitand` of `subtle::Choice`.
#[verifier::external_body]
pub(crate) fn ct_and(a: bool, b: bool) -> (both: bool)
    ensures
        both == (a && b),
{
    (Choice::from(u8::from(a)) & Choice::from(u8::from(b))).into()
}

/// Overwrites `dest` with `src` if `condition` holds.
///
/// Calls `aligned_cmov::CMov::cmov` of `u64`.
#[verifier::external_body]
pub(crate) fn cmov_u64(condition: bool, src: &u64, dest: &mut u64)
    ensures
        *final(dest) == (if condition { *src } else { *old(dest) }),
{
    dest.cmov(Choice::from(u8::from(condition)), src)
}

/// Overwrites the metadata `dest` with `src` if `condition` holds.
///
/// Calls `aligned_cmov::CMov::cmov` of `A8Bytes<U16>`, on two native-endian
/// `u64`: the leaf and the block number.
#[verifier::external_body]
pub(crate) fn cmov_meta(condition: bool, src: &Meta, dest: &mut Meta)
    ensures
        *final(dest) == (if condition { *src } else { *old(dest) }),
{
    let mut from: A8Bytes<U16> = Default::default();
    from.as_mut_ne_u64_slice().copy_from_slice(&[src.leaf_num, src.block_num]);
    let mut to: A8Bytes<U16> = Default::default();
    to.as_mut_ne_u64_slice().copy_from_slice(&[dest.leaf_num, dest.block_num]);
    to.cmov(Choice::from(u8::from(condition)), &from);
    dest.leaf_num = to.as_ne_u64_slice()[0];
    dest.block_num = to.as_ne_u64_slice()[1];
}

/// Overwrites the 64 bytes of `dest` at `start` with those of `src` if
/// `condition` holds.
///
/// Calls `aligned_cmov::CMov::cmov` of `A64Bytes<U64>`.
#[verifier::external_body]
pub(crate) fn cmov_line(condition: bool, src: &[u8], dest: &mut [u8], start: usize)
    requires
        start + 64 <= src@.len(),
        src@.len() == old(dest)@.len(),
    ensures
        final(dest)@ == Seq::new(
            old(dest)@.len(),
            |i: int|
                if condition && start <= i < start + 64 {
                    src@[i]
                } else {
                    old(dest)@[i]
                },
        ),
{
    let mut from: A64Bytes<U64> = Default::default();
    from.copy_from_slice(&src[start..start + 64]);
    let mut to: A64Bytes<U64> = Default::default();
    to.copy_from_slice(&dest[start..start + 64]);
    to.cmov(Choice::from(u8::from(condition)), &from);
    dest[start..start + 64].copy_from_slice(&to);
}

/// Overwrites the value `dest` with `src` if `condition` holds.
pub(crate) fn cmov_value<const VALUE_SIZE: usize>(
    condition: bool,
    src: &[u8; VALUE_SIZE],
    dest: &mut [u8; VALUE_SIZE],
)
    requires
        VALUE_SIZE % 64 == 0,
    ensures
        final(dest)@ == (if condition { src@ } else { old(dest)@ }),
{
    let mut start: usize = 0;
    while start < VALUE_SIZE
        invariant
            start <= VALUE_SIZE,
            start % 64 == 0,
            VALUE_SIZE % 64 == 0,
            forall|i: int|
                0 <= i < VALUE_SIZE ==> #[trigger] dest@[i] == (if condition && i < start {
                    src@[i]
                } else {
                    old(dest)@[i]
                }),
        decreases VALUE_SIZE - start,
    {
        cmov_line(condition, src, dest, start);
        start = start + LINE;
    }
    assert(dest@ =~= (if condition { src@ } else { old(dest)@ }));
}

/// Whether a metadata is vacant.
pub fn meta_is_vacant(src: &Meta) -> (vacant: bool)
    ensures
        vacant == (src.leaf_num == 0),
{
    ct_eq(src.leaf_num, 0)
}

/// Makes a metadata vacant if `condition` holds. The block number stays.
pub fn meta_set_vacant(condition: bool, src: &mut Meta)
    ensures
        final(src).leaf_num == (if condition { 0 } else { old(src).leaf_num }),
        final(src).block_num == old(src).block_num,
{
    cmov_u64(condition, &0, &mut src.leaf_num);
}

} // verus!
