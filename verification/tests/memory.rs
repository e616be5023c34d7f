use termlang::sigma::{RuntimeError, Sigma};

#[test]
fn a_new_memory_is_zero() {
    let s = Sigma::new(3, 2);
    assert_eq!(s.width(), 3);
    assert_eq!(s.height(), 2);
    for row in 0..2 {
        for col in 0..3 {
            for ch in 0..3 {
                assert_eq!(s.cell(row, col, ch), 0);
            }
        }
    }
}

#[test]
fn a_read_gives_back_what_the_same_address_was_written() {
    // [x, y, c] names row y, column x, for a write and for a read.
    let mut s = Sigma::new(4, 4);
    assert_eq!(s.store(77, 1, 2, 0), Ok(()));
    assert_eq!(s.read(1, 2, 0), Ok(77));
    assert_eq!(s.cell(2, 1, 0), 77);
    assert_eq!(s.read(2, 1, 0), Ok(0));
}

#[test]
fn a_read_gives_back_a_write_on_a_narrow_memory() {
    let mut s = Sigma::new(2, 1);
    assert_eq!(s.store(5, 1, 0, 0), Ok(()));
    assert_eq!(s.read(1, 0, 0), Ok(5));
}

#[test]
fn store_leaves_other_cells() {
    let mut s = Sigma::new(2, 2);
    assert_eq!(s.store(9, 0, 1, 1), Ok(()));
    assert_eq!(s.read(0, 1, 1), Ok(9));
    assert_eq!(s.read(0, 1, 0), Ok(0));
    assert_eq!(s.read(0, 0, 1), Ok(0));
    assert_eq!(s.read(1, 1, 1), Ok(0));
    assert_eq!(s.read(1, 0, 1), Ok(0));
}

#[test]
fn store_outside_reports_and_changes_nothing() {
    let mut s = Sigma::new(2, 2);
    assert_eq!(s.store(9, 2, 0, 0), Err(RuntimeError::InvalidAddress { x: 2, y: 0, c: 0 }));
    assert_eq!(s.read(0, 0, 0), Ok(0));
}

#[test]
fn read_outside_reports() {
    let s = Sigma::new(2, 3);
    assert_eq!(s.read(2, 0, 0), Err(RuntimeError::InvalidRead { x: 2, y: 0, c: 0 }));
    assert_eq!(s.read(0, 3, 0), Err(RuntimeError::InvalidRead { x: 0, y: 3, c: 0 }));
    assert_eq!(s.read(0, 0, 3), Err(RuntimeError::InvalidRead { x: 0, y: 0, c: 3 }));
    assert_eq!(s.read(1, 2, 2), Ok(0));
}

#[test]
fn set_cell_sets_one_channel() {
    let mut s = Sigma::new(2, 2);
    s.set_cell(1, 0, 2, 200);
    assert_eq!(s.cell(1, 0, 2), 200);
    assert_eq!(s.cell(1, 0, 1), 0);
}
