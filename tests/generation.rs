use std::collections::HashSet;
use tit::{
    center, corner, neighborhoods_of, search, side, IDMatrix, Matrix, Neighborhood, Neighbors, Node, Tile, TID,
};

fn model(hoods: Vec<[Vec<usize>; 4]>) -> TID {
    let mut list = Vec::new();
    for h in hoods {
        let mut n = Neighborhood::new();
        for d in 0..4 {
            for &u in &h[d] {
                n.insert(u, d);
            }
        }
        list.push(n);
    }
    let count = list.len();
    let mut tid = TID::new();
    tid.mapping(list).n(count).width(8).height(8);
    tid
}

fn none() -> [Vec<usize>; 4] {
    [vec![], vec![], vec![], vec![]]
}

fn id_matrix(cols: usize, rows: usize, data: Vec<Option<usize>>) -> IDMatrix {
    Matrix { rows, cols, data }
}

fn checkerboard() -> TID {
    let img = id_matrix(2, 2, vec![Some(0), Some(1), Some(1), Some(0)]);
    let mut tid = TID::new();
    tid.mapping(neighborhoods_of(&img, 2)).n(2);
    tid
}

fn closed(tid: &TID, g: &IDMatrix) -> bool {
    for y in 0..3usize {
        for x in 0..3usize {
            let here = match g.data[x + 3 * y] {
                Some(t) => t,
                None => return false,
            };
            for (d, h, k) in g.neighbors(x, y) {
                let there = match g.data[h + 3 * k] {
                    Some(t) => t,
                    None => return false,
                };
                if !tid.neighborhood(here, d).contains(&there) {
                    return false;
                }
            }
        }
    }
    true
}

#[test]
fn learned_model_is_symmetric() {
    let img = id_matrix(3, 2, vec![Some(0), Some(1), Some(2), Some(2), None, Some(0)]);
    let hoods = neighborhoods_of(&img, 3);
    assert_eq!(hoods.len(), 3);
    assert_eq!(hoods[0].neighborhood(0), HashSet::from([1]));
    assert_eq!(hoods[0].neighborhood(3), HashSet::from([2]));
    assert_eq!(hoods[1].neighborhood(2), HashSet::from([0]));
    assert_eq!(hoods[1].neighborhood(3), HashSet::new());
    assert_eq!(hoods[2].neighborhood(1), HashSet::from([0]));
    assert_eq!(hoods[2].neighborhood(3), HashSet::from([0]));
    assert_eq!(hoods[0].neighborhood(1), HashSet::from([2]));
    for a in 0..3 {
        for d in 0..4 {
            for b in hoods[a].neighborhood(d) {
                assert!(hoods[b].neighborhood((d + 2) % 4).contains(&a));
            }
        }
    }
}

#[test]
fn model_builder_and_lookup() {
    let mut n = Neighborhood::new();
    n.neighbors([HashSet::from([1]), HashSet::new(), HashSet::from([2, 3]), HashSet::new()]);
    n.insert(4, 7);
    assert_eq!(n.neighborhood(2), HashSet::from([2, 3]));
    assert_eq!(n.neighborhood(1), HashSet::new());
    let mut tid = TID::new();
    tid.mapping(vec![n]).n(1).width(16).height(9);
    assert_eq!((tid.n, tid.width, tid.height), (1, 16, 9));
    assert_eq!(tid.neighborhood(0, 0), HashSet::from([1]));
}

#[test]
fn narrowing_to_one_candidate_resolves() {
    // tile 0 sees only tile 2 to its east
    let tid = model(vec![[vec![2], vec![], vec![], vec![]], none(), none()]);
    let mut g = Node::empty(2, 1, 3);
    g.collapse(0, 0, 0, &tid);
    assert_eq!(g.data, vec![Tile::This(Some(0)), Tile::This(Some(2))]);
}

#[test]
fn narrowing_to_nothing_is_impossible() {
    let tid = model(vec![none(), none(), none()]);
    let mut g = Node::empty(2, 1, 3);
    g.collapse(0, 0, 0, &tid);
    assert_eq!(g.data, vec![Tile::This(Some(0)), Tile::This(None)]);
}

#[test]
fn narrowing_keeps_candidate_order() {
    let tid = model(vec![[vec![3, 1, 2], vec![], vec![], vec![]], none(), none(), none()]);
    let mut g = Node::empty(2, 1, 4);
    g.collapse(0, 0, 0, &tid);
    assert_eq!(g.data, vec![Tile::This(Some(0)), Tile::These(vec![1, 2, 3])]);
}

#[test]
fn collapse_leaves_resolved_and_dead_cells() {
    let tid = model(vec![none(), none(), none()]);
    let mut g = Node::empty(3, 1, 3);
    g.set(0, 0, Tile::This(Some(1)));
    g.set(2, 0, Tile::This(None));
    g.collapse(1, 0, 2, &tid);
    assert_eq!(g.data, vec![Tile::This(Some(1)), Tile::This(Some(2)), Tile::This(None)]);
}

#[test]
fn collapse_touches_only_direct_neighbors() {
    let tid = model(vec![[vec![0], vec![0], vec![0], vec![0]], none(), none()]);
    let mut g = Node::empty(3, 3, 3);
    g.collapse(0, 0, 0, &tid);
    let all = Tile::These(vec![0, 1, 2]);
    assert_eq!(g.at(0, 0), Tile::This(Some(0)));
    assert_eq!(g.at(1, 0), Tile::This(Some(0)));
    assert_eq!(g.at(0, 1), Tile::This(Some(0)));
    assert_eq!(g.at(1, 1), all.clone());
    assert_eq!(g.at(2, 0), all.clone());
    assert_eq!(g.at(2, 2), all);
}

#[test]
fn one_column_two_rows_seeded() {
    let tid = model(vec![[vec![], vec![0], vec![], vec![0]]]);
    let mut g = Node::empty(1, 2, 1);
    g.collapse(0, 0, 0, &tid);
    assert_eq!(g.at(0, 1), Tile::This(Some(0)));
}

#[test]
fn single_cell_two_tiles_empty_model() {
    let tid = model(vec![[vec![], vec![], vec![], vec![]], [vec![], vec![], vec![], vec![]]]);
    for t in 0..2 {
        let mut g = Node::empty(1, 1, 2);
        assert_eq!(g.min_choices(), Some((0, 0)));
        assert_eq!(g.data[0], Tile::These(vec![0, 1]));
        g.collapse(0, 0, t, &tid);
        assert!(g.complete());
        assert!(g.good());
    }
}

#[test]
fn complete_iff_nothing_to_select() {
    let mut g = Node::empty(2, 1, 2);
    assert!(!g.complete());
    assert!(g.min_choices().is_some());
    g.set(0, 0, Tile::This(Some(0)));
    g.set(1, 0, Tile::This(None));
    assert!(g.complete());
    assert_eq!(g.min_choices(), None);
}

#[test]
fn selection_prefers_fewest_then_first() {
    let mut g = Node::new(3, 2);
    g.set(0, 0, Tile::These(vec![0, 1, 2]));
    g.set(2, 0, Tile::These(vec![4, 5]));
    g.set(1, 1, Tile::These(vec![6, 7]));
    assert_eq!(g.min_choices(), Some((2, 0)));
}

#[test]
fn resolved_implies_complete_not_conversely() {
    let mut g = Node::new(2, 1);
    assert!(g.complete());
    assert!(!g.good());
    g.set(0, 0, Tile::This(Some(3)));
    g.set(1, 0, Tile::This(Some(4)));
    assert!(g.good());
    assert!(g.complete());
}

#[test]
fn search_keeps_only_resolved_grids() {
    // tile 0 has tile 1 below it, and tile 1 has tile 0 above it
    let tid = model(vec![[vec![], vec![], vec![], vec![1]], [vec![], vec![0], vec![], vec![]]]);
    let out = search(Node::empty(1, 2, 2), tid);
    assert_eq!(out.len(), 1);
    assert_eq!(out[0].data, vec![Some(0), Some(1)]);
    assert_eq!((out[0].cols, out[0].rows), (1, 2));
}

#[test]
fn search_explores_last_fork_first() {
    let tid = model(vec![[vec![], vec![], vec![], vec![]], [vec![], vec![], vec![], vec![]]]);
    let out = search(Node::empty(1, 1, 2), tid);
    let grids: Vec<Vec<Option<usize>>> = out.into_iter().map(|m| m.data).collect();
    assert_eq!(grids, vec![vec![Some(1)], vec![Some(0)]]);
}

#[test]
fn search_is_deterministic() {
    let first = search(Node::empty(2, 2, 2), checkerboard());
    let second = search(Node::empty(2, 2, 2), checkerboard());
    let a: Vec<Vec<Option<usize>>> = first.into_iter().map(|m| m.data).collect();
    let b: Vec<Vec<Option<usize>>> = second.into_iter().map(|m| m.data).collect();
    assert_eq!(a, b);
    // collapse narrows only cells that still hold candidates, so the last cell is not checked
    // against the neighbor that was resolved before it
    assert_eq!(
        a,
        vec![
            vec![Some(1), Some(0), Some(0), Some(1)],
            vec![Some(1), Some(0), Some(0), Some(0)],
            vec![Some(0), Some(1), Some(1), Some(1)],
            vec![Some(0), Some(1), Some(1), Some(0)],
        ]
    );
}

#[test]
fn search_emits_a_resolved_seed() {
    let tid = model(vec![[vec![], vec![], vec![], vec![]]]);
    let mut seed = Node::new(1, 1);
    seed.set(0, 0, Tile::This(Some(0)));
    let out = search(seed, tid);
    assert_eq!(out.len(), 1);
    assert_eq!(out[0].data, vec![Some(0)]);
}

#[test]
fn center_of_isolated_tile_is_empty() {
    let tid = model(vec![[vec![], vec![], vec![], vec![]]]);
    assert_eq!(center(0, &tid).len(), 0);
    assert_eq!(side(0, &tid).len(), 0);
    assert_eq!(corner(0, &tid).len(), 0);
}

#[test]
fn center_of_checkerboard() {
    let tid = checkerboard();
    let out = center(0, &tid);
    assert_eq!(out.len(), 1);
    let g = &out[0];
    assert_eq!((g.cols, g.rows), (3, 3));
    assert_eq!(g.data, vec![Some(0), Some(1), Some(0), Some(1), Some(0), Some(1), Some(0), Some(1), Some(0)]);
    assert!(closed(&tid, g));
}

#[test]
fn side_of_checkerboard() {
    let tid = checkerboard();
    let out = side(0, &tid);
    assert_eq!(out.len(), 1);
    assert_eq!(out[0].data, vec![Some(1), Some(0), Some(1), Some(0), Some(1), Some(0), Some(1), Some(0), Some(1)]);
    assert!(closed(&tid, &out[0]));
}

#[test]
fn corner_of_checkerboard() {
    let tid = checkerboard();
    let out = corner(0, &tid);
    assert_eq!(out.len(), 1);
    assert_eq!(out[0].data, vec![Some(0), Some(1), Some(0), Some(1), Some(0), Some(1), Some(0), Some(1), Some(0)]);
    assert!(closed(&tid, &out[0]));
}

#[test]
fn fragments_of_a_uniform_model() {
    // two interchangeable tiles, each legal next to either in every direction
    let all = vec![0, 1];
    let tid = model(vec![
        [all.clone(), all.clone(), all.clone(), all.clone()],
        [all.clone(), all.clone(), all.clone(), all.clone()],
    ]);
    for out in [center(1, &tid), side(1, &tid), corner(1, &tid)] {
        assert_eq!(out.len(), 256);
        let distinct: HashSet<Vec<Option<usize>>> = out.iter().map(|g| g.data.clone()).collect();
        assert_eq!(distinct.len(), 256);
        for g in &out {
            assert!(closed(&tid, g));
        }
    }
    assert!(center(1, &tid).iter().all(|g| g.data[4] == Some(1)));
    assert!(side(1, &tid).iter().all(|g| g.data[1] == Some(1)));
    assert!(corner(1, &tid).iter().all(|g| g.data[0] == Some(1)));
}

#[test]
fn random_image_uses_known_ids() {
    let mut tid = TID::new();
    tid.n(3);
    let img = tid.rng(IDMatrix::new(2, 3));
    assert_eq!((img.cols, img.rows), (2, 3));
    assert_eq!(img.data.len(), 6);
    assert!(img.data.iter().all(|v| matches!(v, Some(t) if *t <= 3)));
}

#[test]
fn model_clone_keeps_everything() {
    let tid = checkerboard();
    let copy = tid.clone();
    assert_eq!(copy.n, 2);
    for t in 0..2 {
        for d in 0..4 {
            assert_eq!(copy.neighborhood(t, d), tid.neighborhood(t, d));
        }
    }
    assert_eq!(copy.neighborhood(0, 0), HashSet::from([1]));
}
