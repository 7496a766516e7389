use std::collections::BTreeSet;

use pomme::greedy::ao::compute_vertex_ao_packed;
use pomme::greedy::{pad_linearize, Face, GreedyMesher, Quad};

fn chunk<const CS: usize>(solid: &[(usize, usize, usize, u16)]) -> Vec<u16> {
    let p = CS + 2;
    let mut v = vec![0u16; p * p * p];
    for &(x, y, z, id) in solid {
        v[pad_linearize::<CS>(x, y, z)] = id;
    }
    v
}

fn quad_fields(q: &Quad) -> ([u32; 3], u32, u32, u16) {
    (q.xyz(), q.width(), q.height(), q.voxel_id())
}

#[test]
fn empty_chunk_has_no_quads() {
    let mut m = GreedyMesher::<4>::new();
    let voxels = chunk::<4>(&[]);
    let occ = vec![false; 6 * 6 * 6];
    m.mesh(&voxels, &occ, &BTreeSet::new());
    for f in 0..6 {
        assert!(m.quads[f].is_empty());
    }
}

#[test]
fn single_voxel_gives_one_unit_quad_per_face() {
    let mut m = GreedyMesher::<4>::new();
    let voxels = chunk::<4>(&[(2, 2, 2, 7)]);
    let occ = vec![false; 6 * 6 * 6];
    m.mesh(&voxels, &occ, &BTreeSet::new());
    for f in 0..6 {
        assert_eq!(m.quads[f].len(), 1, "face {f}");
        let q = &m.quads[f][0];
        assert_eq!(q.width(), 1);
        assert_eq!(q.height(), 1);
        assert_eq!(q.voxel_id(), 7);
        assert_eq!(q.ao_levels(), [3, 3, 3, 3]);
    }
}

#[test]
fn full_chunk_merges_each_face_into_one_quad() {
    let mut solid = Vec::new();
    for x in 1..=2 {
        for y in 1..=2 {
            for z in 1..=2 {
                solid.push((x, y, z, 3u16));
            }
        }
    }
    let mut m = GreedyMesher::<2>::new();
    let voxels = chunk::<2>(&solid);
    let occ = vec![false; 4 * 4 * 4];
    m.mesh(&voxels, &occ, &BTreeSet::new());
    for f in 0..6 {
        assert_eq!(m.quads[f].len(), 1, "face {f}");
        let (_, w, h, id) = quad_fields(&m.quads[f][0]);
        assert_eq!((w, h, id), (2, 2, 3), "face {f}");
    }
}

#[test]
fn different_voxels_are_not_merged() {
    let mut m = GreedyMesher::<2>::new();
    let voxels = chunk::<2>(&[(1, 1, 1, 1), (2, 1, 1, 2)]);
    let occ = vec![false; 4 * 4 * 4];
    m.mesh(&voxels, &occ, &BTreeSet::new());
    let total: usize = (0..6).map(|f| m.quads[f].len()).sum();
    assert_eq!(total, 10);
}

#[test]
fn same_voxels_in_a_row_merge() {
    let mut m = GreedyMesher::<4>::new();
    let voxels = chunk::<4>(&[(1, 1, 1, 5), (1, 1, 2, 5), (1, 1, 3, 5)]);
    let occ = vec![false; 6 * 6 * 6];
    m.mesh(&voxels, &occ, &BTreeSet::new());
    let total: usize = (0..6).map(|f| m.quads[f].len()).sum();
    assert_eq!(total, 6);
    let cells: u32 = (0..6).map(|f| m.quads[f].iter().map(|q| q.width() * q.height()).sum::<u32>()).sum();
    assert_eq!(cells, 14);
}

#[test]
fn transparent_neighbour_shows_faces() {
    let glass: BTreeSet<u16> = [9u16].into_iter().collect();
    let voxels = chunk::<2>(&[(1, 1, 1, 1), (2, 1, 1, 9)]);
    let occ = vec![false; 4 * 4 * 4];
    let mut m = GreedyMesher::<2>::new();
    m.mesh(&voxels, &occ, &glass);
    let opaque_total: usize = (0..6).map(|f| m.quads[f].len()).sum();
    let mut m2 = GreedyMesher::<2>::new();
    m2.mesh(&voxels, &occ, &BTreeSet::new());
    let hidden_total: usize = (0..6).map(|f| m2.quads[f].len()).sum();
    assert_eq!(opaque_total, 11);
    assert_eq!(hidden_total, 10);
}

#[test]
fn occluders_darken_vertices() {
    let mut m = GreedyMesher::<4>::new();
    let voxels = chunk::<4>(&[(2, 2, 2, 1)]);
    let mut occ = vec![false; 6 * 6 * 6];
    for x in 0..6 {
        for z in 0..6 {
            occ[(3 * 6 + x) * 6 + z] = true;
        }
    }
    occ[(3 * 6 + 2) * 6 + 2] = false;
    m.mesh(&voxels, &occ, &BTreeSet::new());
    let any_dark = (0..6).any(|f| m.quads[f].iter().any(|q| q.ao_levels() != [3, 3, 3, 3]));
    assert!(any_dark);
}

#[test]
fn pad_index_layout() {
    assert_eq!(pad_linearize::<4>(0, 0, 0), 0);
    assert_eq!(pad_linearize::<4>(0, 0, 1), 1);
    assert_eq!(pad_linearize::<4>(1, 0, 0), 6);
    assert_eq!(pad_linearize::<4>(0, 1, 0), 36);
}

#[test]
fn face_offsets() {
    assert_eq!(Face::from(0usize).offset(), [0, 1, 0]);
    assert_eq!(Face::from(1usize).offset(), [0, -1, 0]);
    assert_eq!(Face::from(2usize).offset(), [1, 0, 0]);
    assert_eq!(Face::from(3usize).offset(), [-1, 0, 0]);
    assert_eq!(Face::from(4usize).offset(), [0, 0, 1]);
    assert_eq!(Face::from(5usize).offset(), [0, 0, -1]);
    assert_eq!(Face::from(99usize).offset(), [0, 0, -1]);
}

#[test]
fn new_mesher_is_empty() {
    let m = GreedyMesher::<8>::new();
    for f in 0..6 {
        assert!(m.quads[f].is_empty());
    }
}

#[test]
fn unit_chunk_quad_origins() {
    let mut m = GreedyMesher::<1>::new();
    let mut v = [0u16; 27];
    v[pad_linearize::<1>(1, 1, 1)] = 5;
    m.mesh(&v, &[false; 27], &BTreeSet::new());
    let origins = [[0, 1, 0], [1, 0, 0], [1, 1, 0], [0, 0, 0], [1, 0, 1], [0, 0, 0]];
    for f in 0..6 {
        assert_eq!(m.quads_of(f).len(), 1, "face {f}");
        let q = &m.quads_of(f)[0];
        assert_eq!(quad_fields(q), (origins[f], 1, 1, 5), "face {f}");
        assert_eq!(q.ao_levels(), [3, 3, 3, 3]);
    }
}

#[test]
fn cells_of_different_ao_stay_apart() {
    let mut m = GreedyMesher::<2>::new();
    let mut v = [0u16; 64];
    v[21] = 1;
    v[22] = 1;
    let mut o = [false; 64];
    o[6] = true;
    o[18] = true;
    m.mesh(&v, &o, &BTreeSet::new());
    assert_eq!(m.quads[0].len(), 2);
    assert_eq!(quad_fields(&m.quads[0][0]), ([0, 1, 0], 1, 1, 1));
    assert_eq!(m.quads[0][0].ao_levels(), [0, 2, 3, 2]);
    assert_eq!(quad_fields(&m.quads[0][1]), ([0, 1, 1], 1, 1, 1));
    assert_eq!(m.quads[0][1].ao_levels(), [2, 3, 3, 3]);
}

#[test]
fn rows_merge_forward_before_columns() {
    // Two by two block on the top face: one quad, two rows long.
    let mut m = GreedyMesher::<2>::new();
    let voxels = chunk::<2>(&[(1, 1, 1, 4), (2, 1, 1, 4), (1, 1, 2, 4), (2, 1, 2, 4)]);
    m.mesh(&voxels, &[false; 64], &BTreeSet::new());
    assert_eq!(m.quads[0].len(), 1);
    let (_, w, h, id) = quad_fields(&m.quads[0][0]);
    assert_eq!((w, h, id), (2, 2, 4));
}

#[test]
fn vertex_ao_packing_extremes() {
    for face in 0..6u8 {
        assert_eq!(compute_vertex_ao_packed(face, 1, 1, 1, &|_: i32, _: i32, _: i32| false), 255);
        assert_eq!(compute_vertex_ao_packed(face, 1, 1, 1, &|_: i32, _: i32, _: i32| true), 0);
    }
}

#[test]
fn vertex_ao_asks_side_side_corner_per_vertex() {
    let asked = std::cell::RefCell::new(Vec::new());
    let occ = |x: i32, y: i32, z: i32| {
        asked.borrow_mut().push((x, y, z));
        (x, y, z) == (9, 10, 20)
    };
    let packed = compute_vertex_ao_packed(0, 10, 10, 20, &occ);
    let asked = asked.into_inner();
    assert_eq!(asked.len(), 12);
    assert_eq!(&asked[0..3], &[(9, 10, 20), (10, 9, 20), (9, 9, 20)]);
    assert_eq!(&asked[9..12], &[(9, 10, 20), (10, 11, 20), (9, 11, 20)]);
    assert_eq!(packed, 0b10_11_11_10);
}
