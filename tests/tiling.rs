use std::collections::HashSet;
use tit::{IDMatrix, Image, Matrix, Neighbors, Pixels, TID, TIS};

const RED: [u8; 4] = [255, 0, 0, 255];
const BLUE: [u8; 4] = [0, 0, 255, 255];

/// An image of `cols` square blocks of `size` pixels in one row, colored as given.
fn strip(size: u32, colors: &[[u8; 4]]) -> Pixels {
    let width = size * colors.len() as u32;
    let mut bytes = Vec::new();
    for _ in 0..size {
        for c in colors {
            for _ in 0..size {
                bytes.extend_from_slice(c);
            }
        }
    }
    Pixels { width, height: size, bytes }
}

fn block(size: u32, color: [u8; 4]) -> Pixels {
    strip(size, &[color])
}

#[test]
fn blank_is_transparent() {
    let p = Pixels::blank(3, 2);
    assert_eq!((p.width, p.height), (3, 2));
    assert_eq!(p.bytes, vec![0; 24]);
}

#[test]
fn same_compares_size_and_pixels() {
    assert!(block(2, RED).same(&block(2, RED)));
    assert!(!block(2, RED).same(&block(2, BLUE)));
    assert!(!block(2, RED).same(&block(1, RED)));
}

#[test]
fn image_keeps_each_tile_once() {
    let img = Image::new(2, 2, strip(2, &[RED, BLUE, RED]));
    assert_eq!(img.shape(), (3, 1));
    let tiles = img.tiles();
    assert_eq!(tiles.len(), 2);
    assert!(tiles[0].same(&block(2, RED)));
    assert!(tiles[1].same(&block(2, BLUE)));
}

#[test]
fn image_drops_partial_tiles() {
    let img = Image::new(2, 2, strip(2, &[RED, BLUE]));
    let wide = Image::new(3, 2, strip(2, &[RED, BLUE]));
    assert_eq!(img.shape(), (2, 1));
    assert_eq!(wide.shape(), (1, 1));
    assert_eq!(wide.tiles()[0].width, 3);
    assert_eq!(wide.tiles()[0].height, 2);
}

#[test]
fn image_neighborhoods() {
    let img = Image::new(2, 2, strip(2, &[RED, BLUE, RED]));
    let hoods = img.compute_neighborhoods();
    assert_eq!(hoods.len(), 2);
    assert_eq!(hoods[0].neighborhood(0), HashSet::from([1]));
    assert_eq!(hoods[0].neighborhood(2), HashSet::from([1]));
    assert_eq!(hoods[1].neighborhood(0), HashSet::from([0]));
    assert_eq!(hoods[1].neighborhood(2), HashSet::from([0]));
    assert_eq!(hoods[0].neighborhood(1), HashSet::new());
    assert_eq!(hoods[1].neighborhood(3), HashSet::new());
}

#[test]
fn decode_draws_tiles_in_place() {
    let mut tid = TID::new();
    tid.n(2).width(2).height(2);
    let tis = TIS::new(tid, vec![block(2, RED), block(2, BLUE)]);
    let m: IDMatrix = Matrix { rows: 1, cols: 2, data: vec![Some(1), None] };
    let out = tis.decode(m);
    assert_eq!((out.width, out.height), (4, 2));
    let mut expected = Vec::new();
    for _ in 0..2 {
        expected.extend_from_slice(&BLUE);
        expected.extend_from_slice(&BLUE);
        expected.extend_from_slice(&[0; 8]);
    }
    assert_eq!(out.bytes, expected);
}
