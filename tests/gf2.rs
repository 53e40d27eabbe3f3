use pathtrace::gf2::matrix_rank;

#[test]
fn test_matrix_rank() {
    let mut matrix = vec![0b1100, 0b1010, 0b1001];
    assert_eq!(matrix_rank(&mut matrix), 3);
    let mut matrix = vec![0b1100, 0b1100, 0b1100];
    assert_eq!(matrix_rank(&mut matrix), 1);
    let mut matrix = vec![0b0000, 0b0000, 0b0000];
    assert_eq!(matrix_rank(&mut matrix), 0);
}

#[test]
fn empty_matrix_has_rank_zero() {
    let mut matrix: Vec<u32> = Vec::new();
    assert_eq!(matrix_rank(&mut matrix), 0);
}

#[test]
fn identity_has_full_rank() {
    let mut matrix: Vec<u32> = (0..32).map(|i| 1u32 << i).collect();
    assert_eq!(matrix_rank(&mut matrix), 32);
}

#[test]
fn rank_is_capped_by_columns() {
    let mut matrix: Vec<u32> = (0..40).map(|i| (1u32 << (i % 32)) | 1).collect();
    assert_eq!(matrix_rank(&mut matrix), 32);
}

#[test]
fn dependent_row_does_not_add_rank() {
    let mut matrix = vec![0b0011, 0b0110, 0b0101, 0xffff_0000];
    assert_eq!(matrix_rank(&mut matrix), 3);
}

#[test]
fn rows_are_reduced_in_place() {
    let mut matrix = vec![0b110, 0b011];
    assert_eq!(matrix_rank(&mut matrix), 2);
    // The second row pivots column 0 and moves up; the first then pivots column 1.
    assert_eq!(matrix, vec![0b101, 0b110]);
}
