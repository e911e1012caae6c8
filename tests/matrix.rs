use tit::{Matrix, Neighbors};

type UMatrix = Matrix<usize>;

#[test]
fn construction() {
    let a = UMatrix::new(1, 1);
    let b = UMatrix::new(1, 2);
    let c = UMatrix::new(2, 2);
    assert_eq!(a.data().len(), 1);
    assert_eq!(b.data().len(), 2);
    assert_eq!(c.data().len(), 4);
}

#[test]
fn col_api() {
    let a = UMatrix::new(1, 2);
    let b = UMatrix::new(2, 1);
    assert_eq!(a.cols(), 1);
    assert_eq!(b.cols(), 2);
}

#[test]
fn row_api() {
    let a = UMatrix::new(1, 2);
    let b = UMatrix::new(2, 1);
    assert_eq!(a.rows(), 2);
    assert_eq!(b.rows(), 1);
}

#[test]
fn read_write() {
    let mut a = UMatrix::new(1, 2);
    let mut b = UMatrix::new(2, 2);
    let mut c = UMatrix::new(3, 1);

    assert_eq!(a.at(0, 0), 0);
    assert_eq!(a.at(0, 1), 0);
    assert_eq!(b.at(1, 1), 0);
    assert_eq!(b.at(1, 0), 0);

    a.set(0, 0, 0);
    a.set(0, 1, 1);

    b.set(1, 1, 3);
    b.set(1, 0, 1);
    b.set(0, 1, 2);

    c.set(0, 0, 0);
    c.set(1, 0, 1);
    c.set(2, 0, 2);

    assert_eq!(a.data, vec![0, 1]);
    assert_eq!(b.data, vec![0, 1, 2, 3]);
}

#[test]
fn neighbors_in_direction_order() {
    let m = UMatrix::new(3, 3);
    assert_eq!(m.neighbors(1, 1), vec![(0, 2, 1), (1, 1, 0), (2, 0, 1), (3, 1, 2)]);
    assert_eq!(m.neighbors(0, 0), vec![(0, 1, 0), (3, 0, 1)]);
    assert_eq!(m.neighbors(2, 2), vec![(1, 2, 1), (2, 1, 2)]);
    assert_eq!(m.shape(), (3, 3));
}

#[test]
fn clone_keeps_entries() {
    let mut m = UMatrix::new(2, 1);
    m.set(1, 0, 7);
    let c = m.clone();
    assert_eq!(c.data, vec![0, 7]);
    assert_eq!((c.cols, c.rows), (2, 1));
}
