use voxel4d::world::{Block, World, N};

#[test]
fn new_world_is_solid() {
    let w = World::new();
    for x in 0..N as isize {
        for y in 0..N as isize {
            assert_eq!(*w.block([x, y, 0, N as isize - 1]), Block::Block);
        }
    }
}

#[test]
fn outside_the_lattice_is_air() {
    let w = World::new();
    assert_eq!(*w.block([-1, 0, 0, 0]), Block::Air);
    assert_eq!(*w.block([0, 0, 0, N as isize]), Block::Air);
    assert!(w.block([0, 5, 0, 0]).is_transparent());
    assert!(!w.block([0, 0, 0, 0]).is_transparent());
}

#[test]
fn block_mut_edits_one_cell() {
    let mut w = World::new();
    *w.block_mut([1, 2, 0, 1]).unwrap() = Block::Air;
    assert_eq!(*w.block([1, 2, 0, 1]), Block::Air);
    assert_eq!(*w.block([1, 2, 0, 0]), Block::Block);
    assert!(w.block_mut([3, 0, 0, 0]).is_none());
    assert!(w.block_mut([0, 0, -1, 0]).is_none());
}

#[test]
fn solid_world_mesh_has_outer_layers_only() {
    let w = World::new();
    let layers = w.mesh();
    assert_eq!(layers.len(), 8 * (N + 1));
    for (q, l) in layers.iter().enumerate() {
        let o = q / (N + 1);
        let d = q % (N + 1);
        assert_eq!(l.depth, d);
        assert_eq!(l.dir, o % 2 == 1);
        assert_eq!(l.sheets.len(), 6 * N);
        // Facing up (even orientations) the only boundary is the top layer; facing down,
        // the bottom one.
        let expected = if (o % 2 == 0 && d == N) || (o % 2 == 1 && d == 0) { N * N * N } else { 0 };
        assert_eq!(l.cells.len(), expected);
        for s in &l.sheets {
            assert_eq!(s.squares.len(), if expected > 0 { N * N } else { 0 });
        }
    }
    assert_eq!(layers[0].dimensions, [0, 1, 2, 3]);
    assert_eq!(layers[N + 1].dimensions, [1, 0, 2, 3]);
    assert_eq!(layers[7 * (N + 1)].dimensions, [2, 3, 1, 0]);
}

#[test]
fn carved_cell_exposes_its_walls() {
    let mut w = World::new();
    *w.block_mut([1, 1, 1, 1]).unwrap() = Block::Air;
    let layers = w.mesh();
    // Orientation 0 (axes x, y, z along, w across), facing up: the floor of the hole at
    // w = 1 is the top of the solid cell below it.
    let floor = &layers[1];
    assert_eq!(floor.depth, 1);
    assert_eq!(floor.cells, vec![voxel4d::world::Cube { x: 1, y: 1, z: 1 }]);
    // Facing down at w = 2: the hole's ceiling.
    let ceiling = &layers[(N + 1) + 2];
    assert!(ceiling.dir);
    assert_eq!(ceiling.cells, vec![voxel4d::world::Cube { x: 1, y: 1, z: 1 }]);
    // The near sheet of rotation 0 at depth 1 sees the one square.
    assert_eq!(floor.sheets[1].axes, [0, 1, 2]);
    assert_eq!(floor.sheets[1].depth, 1);
    assert!(!floor.sheets[1].far);
    assert_eq!(floor.sheets[1].squares, vec![voxel4d::world::Square { u: 1, v: 1 }]);
}
