use voxel4d::mesh::{new, Lattice, Placement};

fn lattice_with(cells: &[[usize; 4]]) -> Box<Lattice> {
    let mut b = Box::new([[[[false; 16]; 16]; 16]; 16]);
    for c in cells {
        b[c[0]][c[1]][c[2]][c[3]] = true;
    }
    b
}

fn face(axis: usize, x: usize, y: usize, z: usize, w: usize) -> Placement {
    Placement { axis, x, y, z, w }
}

#[test]
fn single_cell_has_eight_faces() {
    let faces = new(&lattice_with(&[[5, 6, 7, 8]]));
    assert_eq!(
        faces,
        vec![
            face(0, 5, 6, 7, 8),
            face(1, 5, 6, 7, 8),
            face(2, 5, 6, 7, 8),
            face(3, 5, 6, 7, 8),
            face(3, 5, 6, 7, 9),
            face(2, 5, 6, 8, 8),
            face(1, 5, 7, 7, 8),
            face(0, 6, 6, 7, 8),
        ]
    );
}

#[test]
fn single_cell_at_the_lattice_edge_has_eight_faces() {
    assert_eq!(new(&lattice_with(&[[0, 0, 0, 0]])).len(), 8);
    assert_eq!(new(&lattice_with(&[[15, 15, 15, 15]])).len(), 8);
    assert_eq!(new(&lattice_with(&[[0, 15, 3, 0]])).len(), 8);
}

#[test]
fn empty_lattice_has_no_faces() {
    assert!(new(&lattice_with(&[])).is_empty());
}

#[test]
fn shared_face_between_neighbours_is_not_emitted() {
    let faces = new(&lattice_with(&[[2, 2, 2, 2], [2, 2, 2, 3]]));
    assert_eq!(faces.len(), 14);
    assert!(!faces.contains(&face(3, 2, 2, 2, 3)));
    assert!(faces.contains(&face(3, 2, 2, 2, 2)));
    assert!(faces.contains(&face(3, 2, 2, 2, 4)));
}

#[test]
fn embedding_maps_local_axes_cyclically() {
    assert_eq!(
        face(3, 1, 2, 3, 4).embedding(),
        [[1, 0, 0, 1], [0, 1, 0, 2], [0, 0, 1, 3], [0, 0, 0, 4], [0, 0, 0, 1]]
    );
    assert_eq!(
        face(2, 1, 2, 3, 4).embedding(),
        [[0, 1, 0, 1], [0, 0, 1, 2], [0, 0, 0, 3], [1, 0, 0, 4], [0, 0, 0, 1]]
    );
    assert_eq!(
        face(0, 16, 0, 5, 7).embedding(),
        [[0, 0, 0, 16], [1, 0, 0, 0], [0, 1, 0, 5], [0, 0, 1, 7], [0, 0, 0, 1]]
    );
}
