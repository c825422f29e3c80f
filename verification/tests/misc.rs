use ksplang_opt::cfg::{Condition, InstrId, BlockId, ValueId};
use ksplang_opt::convert::{AssertInto, SaturatingInto};
use ksplang_opt::fuzz::steps;
use ksplang_opt::seqs::{all_equal, RemoveAll};

#[test]
fn remove_all_positions() {
    let mut v = vec![10, 20, 30, 40, 50];
    v.remove_all(&[1, 3]);
    assert_eq!(v, vec![10, 30, 50]);
    let mut v = vec![1, 2, 3];
    v.remove_all(&[]);
    assert_eq!(v, vec![1, 2, 3]);
    v.remove_all(&[0, 1, 2]);
    assert!(v.is_empty());
}

#[test]
fn all_equal_items() {
    assert!(all_equal::<i32>(&[]));
    assert!(all_equal(&[7]));
    assert!(all_equal(&[1, 1, 1]));
    assert!(!all_equal(&[1, 1, 2]));
    assert!(!all_equal(&[2, 1, 1]));
}

#[test]
fn saturating_conversions() {
    let a: i64 = 300u64.saturating_into();
    assert_eq!(a, 300);
    let b: i64 = u64::MAX.saturating_into();
    assert_eq!(b, i64::MAX);
    let c: u64 = (-5i64).saturating_into();
    assert_eq!(c, 0);
    let d: u64 = 5i64.saturating_into();
    assert_eq!(d, 5);
    let e: i64 = (i128::MAX).saturating_into();
    assert_eq!(e, i64::MAX);
    let f: i64 = (i128::MIN).saturating_into();
    assert_eq!(f, i64::MIN);
    let g: i64 = (-7i128).saturating_into();
    assert_eq!(g, -7);
    let h: u64 = (u128::MAX).saturating_into();
    assert_eq!(h, u64::MAX);
    let i: u64 = 9u128.saturating_into();
    assert_eq!(i, 9);
}

#[test]
fn asserted_conversions() {
    let a: i64 = 5u64.assert_into();
    assert_eq!(a, 5);
    let b: u64 = 6i64.assert_into();
    assert_eq!(b, 6);
    let c: u32 = 7usize.assert_into();
    assert_eq!(c, 7);
    let d: usize = 8u32.assert_into();
    assert_eq!(d, 8);
}

#[test]
fn condition_negation() {
    let a = ValueId(1);
    let b = ValueId(2);
    assert_eq!(Condition::Eq(a, b).neg(), Condition::Neq(a, b));
    assert_eq!(Condition::Lt(a, b).neg(), Condition::Geq(a, b));
    assert_eq!(Condition::Leq(a, b).neg(), Condition::Gt(a, b));
    assert_eq!(Condition::<ValueId>::True.neg(), Condition::False);
    assert_eq!(Condition::Gt(a, b).neg().neg(), Condition::Gt(a, b));
}

#[test]
fn instr_id_parts() {
    let id = InstrId(BlockId(3), 9);
    assert_eq!(id.block_id(), BlockId(3));
    assert_eq!(id.instr_ix(), 9);
}

#[test]
fn fuzz_steps() {
    assert_eq!(steps(0), 1);
    assert_eq!(steps(511), 512);
    assert_eq!(steps(512), 1);
    assert_eq!(steps(u16::MAX), 512);
}
