use tit::{Neighborhood, Neighbors, Node, Tile, TID};

#[test]
fn backtrack_neighborhood() {
    let a = Node::new(1, 2);
    assert_eq!(a.neighbors(0, 0).len(), 1);
    assert_eq!(a.neighbors(0, 1).len(), 1);
    let b = Node::new(1, 3);
    assert_eq!(b.neighbors(0, 1).len(), 2);
    let c = Node::new(3, 3);
    assert_eq!(c.neighbors(0, 0).len(), 2);
    assert_eq!(c.neighbors(0, 1).len(), 3);
    assert_eq!(c.neighbors(1, 1).len(), 4);
}

#[test]
fn backtrack_node_empty() {
    let n = 5;
    let a = Node::empty(1, 1, n);
    let b = Node::empty(1, 2, n);
    let c = Node::empty(2, 1, n);
    let d = Node::empty(1, 3, n);
    let e = Node::empty(3, 1, n);
    let f = Node::empty(2, 2, n);
    let x = Tile::These((0..n).collect());
    assert_eq!(a.data, vec![x.clone()]);
    assert_eq!(b.data, vec![x.clone(), x.clone()]);
    assert_eq!(c.data, vec![x.clone(), x.clone()]);
    assert_eq!(d.data, vec![x.clone(), x.clone(), x.clone()]);
    assert_eq!(e.data, vec![x.clone(), x.clone(), x.clone()]);
    assert_eq!(f.data, vec![x.clone(), x.clone(), x.clone(), x.clone()]);
}

#[test]
fn backtrack_complete() {
    let mut a = Node::new(1, 1);
    assert_eq!(a.complete(), true);
    a.set(0, 0, Tile::These(vec![0]));
    assert_eq!(a.complete(), false);
    a.set(0, 0, Tile::This(Some(2)));
    assert_eq!(a.complete(), true);
}

#[test]
fn backtrack_good() {
    let mut a = Node::new(1, 1);
    let b = Node::empty(1, 1, 1);
    assert_eq!(a.good(), false);
    assert_eq!(b.good(), false);

    a.set(0, 0, Tile::This(Some(0)));
    assert_eq!(a.good(), true);
    a.set(0, 0, Tile::This(None));
    assert_eq!(a.good(), false);
}

#[test]
fn backtrack_min_choices() {
    let mut a = Node::empty(1, 2, 1);
    assert_eq!(a.min_choices(), Some((0, 0)));
    a.set(0, 0, Tile::This(Some(0)));
    assert_eq!(a.min_choices(), Some((0, 1)));
    let mut b = Node::new(2, 2);
    assert_eq!(b.min_choices(), None);
    b.set(1, 1, Tile::These(vec![]));
    assert_eq!(b.min_choices(), Some((1, 1)));
}

/// Crude test, requires further research into minimal neighborhood rule sets before it will
/// be clear what is necessary and crucial to test.
#[test]
fn backtrack_collapse() {
    let mut n = Neighborhood::new();
    n.insert(0, 0);
    n.insert(0, 1);
    n.insert(0, 2);
    n.insert(0, 3);
    let mut tid = TID::new();
    tid.mapping(vec![n]);
    let mut a = Node::empty(1, 2, 1);
    assert_eq!(a.data, vec![Tile::These(vec![0]), Tile::These(vec![0])]);
    a.collapse(0, 0, 0, &tid);
    assert_eq!(a.data, vec![Tile::This(Some(0)), Tile::This(Some(0))]);
}

#[test]
fn backtrack_to_idmatrix() {
    let mut a = Node::new(1, 1);
    assert_eq!(a.to_idmatrix().data, vec![None]);
    a.set(0, 0, Tile::This(Some(0)));
    assert_eq!(a.to_idmatrix().data, vec![Some(0)]);

    let mut b = Node::new(1, 2);
    b.set(0, 1, Tile::This(Some(0)));
    assert_eq!(b.to_idmatrix().data, vec![None, Some(0)]);

    let mut c = Node::new(3, 1);
    c.set(1, 0, Tile::This(Some(0)));
    c.set(2, 0, Tile::This(Some(1)));
    assert_eq!(c.to_idmatrix().data, vec![None, Some(0), Some(1)]);

    let mut d = Node::new(3, 3);
    d.set(0, 0, Tile::This(Some(0)));
    d.set(1, 1, Tile::This(Some(1)));
    d.set(2, 2, Tile::This(Some(2)));
    d.set(2, 0, Tile::This(Some(3)));
    d.set(0, 2, Tile::This(Some(4)));
    d.set(1, 0, Tile::This(Some(5)));
    d.set(2, 1, Tile::This(Some(6)));
    d.set(1, 2, Tile::This(Some(7)));
    d.set(0, 1, Tile::This(Some(8)));
    assert_eq!(
        d.to_idmatrix().data,
        vec![
            Some(0),
            Some(5),
            Some(3),
            Some(8),
            Some(1),
            Some(6),
            Some(4),
            Some(7),
            Some(2)
        ]
    );
}
