use rauzy_iet::exact_nat::ExactNat;
use rauzy_iet::rauzy_cocycle::CocycleMatrix;

fn assert_column(m: &CocycleMatrix, col: usize, expected: &[u64]) {
    assert_eq!(m.size(), expected.len());
    for (row, &v) in expected.iter().enumerate() {
        assert!(m.entry_eq_u64(col, row, v));
    }
}

#[test]
fn test_identity_and_column_addition() {
    let mut m = CocycleMatrix::new(3);
    assert_column(&m, 0, &[1, 0, 0]);
    assert_column(&m, 1, &[0, 1, 0]);
    assert_column(&m, 2, &[0, 0, 1]);

    assert_eq!(m.sum_two_columns(0, 1), Some(()));
    assert_column(&m, 0, &[1, 1, 0]);
    assert_column(&m, 1, &[0, 1, 0]);
    assert_column(&m, 2, &[0, 0, 1]);

    assert_eq!(m.sum_two_columns(5, 1), None);
    assert_eq!(m.sum_two_columns(1, 5), None);
    assert_column(&m, 0, &[1, 1, 0]);
    assert_column(&m, 1, &[0, 1, 0]);
    assert_column(&m, 2, &[0, 0, 1]);
}

#[test]
fn test_adding_a_column_to_itself_doubles_it() {
    let mut m = CocycleMatrix::new(2);
    assert_eq!(m.sum_two_columns(0, 1), Some(()));
    assert_eq!(m.sum_two_columns(0, 0), Some(()));
    assert_column(&m, 0, &[2, 2]);
    assert_column(&m, 1, &[0, 1]);
}

#[test]
fn test_empty_matrix_rejects_all_indices() {
    let mut m = CocycleMatrix::new(0);
    assert_eq!(m.size(), 0);
    assert_eq!(m.sum_two_columns(0, 0), None);
}

#[test]
fn test_long_induction_path_stays_exact() {
    // Alternating column additions drive the entries along a Fibonacci-like
    // recurrence, far past the 32-bit limb boundary; a u64 shadow of the
    // four entries must agree exactly at the end.
    let mut m = CocycleMatrix::new(2);
    let mut c0: [u64; 2] = [1, 0];
    let mut c1: [u64; 2] = [0, 1];
    for step in 0..80 {
        if step % 2 == 0 {
            assert_eq!(m.sum_two_columns(0, 1), Some(()));
            c0 = [c0[0] + c1[0], c0[1] + c1[1]];
        } else {
            assert_eq!(m.sum_two_columns(1, 0), Some(()));
            c1 = [c0[0] + c1[0], c0[1] + c1[1]];
        }
    }
    assert!(c0[0] > u64::from(u32::MAX));
    assert_column(&m, 0, &c0);
    assert_column(&m, 1, &c1);
}

#[test]
fn test_exact_nat_carries() {
    let mut e = ExactNat::from_u32(u32::MAX);
    assert!(e.eq_u32(u32::MAX));
    let one = ExactNat::from_u32(1);
    e.add_assign(&one);
    assert!(!e.eq_u32(0));
    assert!(e.eq_u64(0x1_0000_0000));
    let f = e.clone();
    e.add_assign(&f);
    assert!(e.eq_u64(0x2_0000_0000));
    e.add_assign(&ExactNat::from_u32(0));
    assert!(e.eq_u64(0x2_0000_0000));

    let mut zero = ExactNat::from_u32(0);
    assert!(zero.eq_u32(0));
    zero.add_assign(&ExactNat::from_u32(0));
    assert!(zero.eq_u64(0));
}
