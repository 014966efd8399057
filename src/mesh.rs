use vstd::prelude::*;

verus! {

/// Side length of the occupancy lattice read by [`new`].
pub const SIZE: usize = 16;

/// A four-dimensional occupancy lattice, indexed `[x][y][z][w]`.
pub type Lattice = [[[[bool; 16]; 16]; 16]; 16];

/// Is the cell `(c0, c1, c2, c3)` solid? Cells outside the lattice are empty.
pub open spec fn occupied(blocks: Lattice, c0: int, c1: int, c2: int, c3: int) -> bool {
    &&& 0 <= c0 < 16
    &&& 0 <= c1 < 16
    &&& 0 <= c2 < 16
    &&& 0 <= c3 < 16
    &&& blocks[c0][c1][c2][c3]
}

/// Where a boundary facet stands: the unit cube face orthogonal to world axis `axis`,
/// at layer `coord(axis)` along that axis, spanning the cell `(x, y, z, w)` in the other three.
/// It separates that cell from its neighbour one step down along `axis`.
#[derive(Copy, Clone, PartialEq, Eq, Structural, Debug)]
pub struct Placement {
    pub axis: usize,
    pub x: usize,
    pub y: usize,
    pub z: usize,
    pub w: usize,
}

impl Placement {
    pub open spec fn coord(self, k: int) -> int {
        if k == 0 {
            self.x as int
        } else if k == 1 {
            self.y as int
        } else if k == 2 {
            self.z as int
        } else {
            self.w as int
        }
    }

    /// Axis in range, the layer in `0..=SIZE`, the other coordinates in `0..SIZE`.
    pub open spec fn valid(self) -> bool {
        &&& self.axis < 4
        &&& forall|k: int|
            0 <= k < 4 ==> #[trigger] self.coord(k) <= if k == self.axis {
                16int
            } else {
                15int
            }
    }

    /// Is the cell on the upper side of this face solid?
    pub open spec fn upper_solid(self, blocks: Lattice) -> bool {
        occupied(blocks, self.x as int, self.y as int, self.z as int, self.w as int)
    }

    /// Is the cell on the lower side of this face solid?
    pub open spec fn lower_solid(self, blocks: Lattice) -> bool {
        let d0: int = if self.axis == 0 { 1 } else { 0 };
        let d1: int = if self.axis == 1 { 1 } else { 0 };
        let d2: int = if self.axis == 2 { 1 } else { 0 };
        let d3: int = if self.axis == 3 { 1 } else { 0 };
        occupied(blocks, self.x - d0, self.y - d1, self.z - d2, self.w - d3)
    }

    /// Occupancy differs across the face: it is part of the solid/air boundary.
    pub open spec fn is_face_of(self, blocks: Lattice) -> bool {
        self.valid() && self.upper_solid(blocks) != self.lower_solid(blocks)
    }

    /// Lattice scan order: by `x`, `y`, `z`, `w`, then axis.
    pub open spec fn precedes(self, x: int, y: int, z: int, w: int, axis: int) -> bool {
        ||| self.x < x
        ||| self.x == x && self.y < y
        ||| self.x == x && self.y == y && self.z < z
        ||| self.x == x && self.y == y && self.z == z && self.w < w
        ||| self.x == x && self.y == y && self.z == z && self.w == w && self.axis < axis
    }

    pub open spec fn before(self, other: Placement) -> bool {
        self.precedes(other.x as int, other.y as int, other.z as int, other.w as int, other.axis as int)
    }
}

/// `faces` lists, in scan order and each once, exactly the boundary faces of `blocks`.
pub open spec fn is_mesh_of(blocks: Lattice, faces: Seq<Placement>) -> bool {
    &&& forall|i: int| 0 <= i < faces.len() ==> (#[trigger] faces[i]).is_face_of(blocks)
    &&& forall|i: int, j: int| 0 <= i < j < faces.len() ==> (#[trigger] faces[i]).before(#[trigger] faces[j])
    &&& forall|f: Placement| #[trigger] f.is_face_of(blocks) ==> faces.contains(f)
}

/// The scan of `faces` has reached `(x, y, z, w, axis)`: it holds exactly the boundary
/// faces that come before that point, in order.
spec fn scanned(blocks: Lattice, faces: Seq<Placement>, x: int, y: int, z: int, w: int, axis: int) -> bool {
    &&& forall|i: int| 0 <= i < faces.len() ==> (#[trigger] faces[i]).is_face_of(blocks)
    &&& forall|i: int| 0 <= i < faces.len() ==> (#[trigger] faces[i]).precedes(x, y, z, w, axis)
    &&& forall|i: int, j: int| 0 <= i < j < faces.len() ==> (#[trigger] faces[i]).before(#[trigger] faces[j])
    &&& forall|f: Placement| #[trigger] f.is_face_of(blocks) && f.precedes(x, y, z, w, axis) ==> faces.contains(f)
}

/// Is the cell at the given coordinates solid? Coordinates past the lattice read as empty.
fn solid(blocks: &Lattice, c0: usize, c1: usize, c2: usize, c3: usize) -> (r: bool)
    ensures
        r == occupied(*blocks, c0 as int, c1 as int, c2 as int, c3 as int),
{
    if c0 < SIZE && c1 < SIZE && c2 < SIZE && c3 < SIZE {
        blocks[c0][c1][c2][c3]
    } else {
        false
    }
}

/// Is `f`, a valid placement, a face of the solid/air boundary of `blocks`?
fn is_face(blocks: &Lattice, f: Placement) -> (r: bool)
    requires
        f.valid(),
    ensures
        r == f.is_face_of(*blocks),
{
    let upper = solid(blocks, f.x, f.y, f.z, f.w);
    let lower = if f.coord_exec(f.axis) == 0 {
        false
    } else if f.axis == 0 {
        solid(blocks, f.x - 1, f.y, f.z, f.w)
    } else if f.axis == 1 {
        solid(blocks, f.x, f.y - 1, f.z, f.w)
    } else if f.axis == 2 {
        solid(blocks, f.x, f.y, f.z - 1, f.w)
    } else {
        solid(blocks, f.x, f.y, f.z, f.w - 1)
    };
    upper != lower
}

impl Placement {
    /// The world axis that local axis `c` (of three) of the face runs along: the
    /// three axes after `axis`, cyclically.
    pub open spec fn local_axis(self, c: int) -> int {
        (self.axis + 1 + c) % 4
    }

    /// The homogeneous 5x4 map from the face's local unit cube into world space:
    /// local axis `c` runs along world axis `local_axis(c)`, and the local origin sits
    /// at the face's lattice corner.
    pub fn embedding(&self) -> (m: [[i64; 4]; 5])
        requires
            self.valid(),
        ensures
            forall|r: int, c: int| 0 <= r < 4 && 0 <= c < 3 ==> #[trigger] m[r][c] == if r
                == self.local_axis(c) {
                1i64
            } else {
                0i64
            },
            forall|r: int| 0 <= r < 4 ==> #[trigger] m[r][3] == self.coord(r),
            m[4][0] == 0 && m[4][1] == 0 && m[4][2] == 0 && m[4][3] == 1,
    {
        [self.row(0), self.row(1), self.row(2), self.row(3), [0, 0, 0, 1]]
    }

    /// Row `r` of the embedding: which local axis feeds world axis `r`, and its offset.
    fn row(&self, r: usize) -> (v: [i64; 4])
        requires
            self.valid(),
            r < 4,
        ensures
            forall|c: int| 0 <= c < 3 ==> #[trigger] v[c] == if r == self.local_axis(c) {
                1i64
            } else {
                0i64
            },
            v[3] == self.coord(r as int),
    {
        let offset = self.coord_exec(r) as i64;
        let a = self.axis;
        let c0: i64 = if r == (a + 1) % 4 { 1 } else { 0 };
        let c1: i64 = if r == (a + 2) % 4 { 1 } else { 0 };
        let c2: i64 = if r == (a + 3) % 4 { 1 } else { 0 };
        proof {
            assert(self.coord(r as int) <= 16);
        }
        [c0, c1, c2, offset]
    }

    fn coord_exec(self, k: usize) -> (r: usize)
        requires
            k < 4,
        ensures
            r as int == self.coord(k as int),
    {
        if k == 0 {
            self.x
        } else if k == 1 {
            self.y
        } else if k == 2 {
            self.z
        } else {
            self.w
        }
    }
}

/// Scan `blocks` for the boundary between solid and empty cells, with everything
/// outside the lattice empty. Each unit face across which occupancy changes is listed
/// once, in scan order (by `x`, `y`, `z`, `w`, then axis).
pub fn new(blocks: &Lattice) -> (faces: Vec<Placement>)
    ensures
        is_mesh_of(*blocks, faces@),
{
    let mut faces: Vec<Placement> = Vec::new();
    let mut x: usize = 0;
    while x <= SIZE
        invariant
            x <= SIZE + 1,
            scanned(*blocks, faces@, x as int, 0, 0, 0, 0),
        decreases SIZE + 1 - x,
    {
        let mut y: usize = 0;
        while y <= SIZE
            invariant
                x <= SIZE,
                y <= SIZE + 1,
                scanned(*blocks, faces@, x as int, y as int, 0, 0, 0),
            decreases SIZE + 1 - y,
        {
            let mut z: usize = 0;
            while z <= SIZE
                invariant
                    x <= SIZE,
                    y <= SIZE,
                    z <= SIZE + 1,
                    scanned(*blocks, faces@, x as int, y as int, z as int, 0, 0),
                decreases SIZE + 1 - z,
            {
                let mut w: usize = 0;
                while w <= SIZE
                    invariant
                        x <= SIZE,
                        y <= SIZE,
                        z <= SIZE,
                        w <= SIZE + 1,
                        scanned(*blocks, faces@, x as int, y as int, z as int, w as int, 0),
                    decreases SIZE + 1 - w,
                {
                    let mut axis: usize = 0;
                    while axis < 4
                        invariant
                            x <= SIZE,
                            y <= SIZE,
                            z <= SIZE,
                            w <= SIZE,
                            axis <= 4,
                            scanned(*blocks, faces@, x as int, y as int, z as int, w as int, axis as int),
                        decreases 4 - axis,
                    {
                        let f = Placement { axis, x, y, z, w };
                        let in_range = (axis == 0 || x < SIZE) && (axis == 1 || y < SIZE)
                            && (axis == 2 || z < SIZE) && (axis == 3 || w < SIZE);
                        proof {
                            assert(in_range == f.valid()) by {
                                if in_range {
                                    assert forall|k: int| 0 <= k < 4 implies #[trigger] f.coord(k)
                                        <= if k == f.axis { 16int } else { 15int } by {}
                                } else {
                                    assert(!f.valid()) by {
                                        if axis != 0 && x >= SIZE { assert(f.coord(0) > 15); }
                                        if axis != 1 && y >= SIZE { assert(f.coord(1) > 15); }
                                        if axis != 2 && z >= SIZE { assert(f.coord(2) > 15); }
                                        if axis != 3 && w >= SIZE { assert(f.coord(3) > 15); }
                                    }
                                }
                            }
                        }
                        let ghost prev = faces@;
                        if in_range && is_face(blocks, f) {
                            faces.push(f);
                        }
                        proof {
                            let a = axis as int;
                            assert forall|g: Placement| #[trigger] g.is_face_of(*blocks)
                                && g.precedes(x as int, y as int, z as int, w as int, a + 1)
                                implies faces@.contains(g) by {
                                if g.precedes(x as int, y as int, z as int, w as int, a) {
                                    let i = choose|i: int| 0 <= i < prev.len() && prev[i] == g;
                                    assert(faces@[i] == g);
                                } else {
                                    assert(g == f);
                                    assert(faces@[faces@.len() - 1] == g);
                                }
                            }
                        }
                        axis = axis + 1;
                    }
                    w = w + 1;
                }
                z = z + 1;
            }
            y = y + 1;
        }
        x = x + 1;
    }
    proof {
        assert forall|f: Placement| #[trigger] f.is_face_of(*blocks) implies faces@.contains(f) by {
            assert(f.coord(0) <= 16);
        }
    }
    faces
}

/// The face orthogonal to `axis` at the lower side of the cell `(x, y, z, w)`, or at its
/// upper side when `upper` holds.
pub open spec fn cell_face(axis: usize, x: usize, y: usize, z: usize, w: usize, upper: bool) -> Placement {
    let s: usize = if upper { 1 } else { 0 };
    Placement {
        axis,
        x: if axis == 0 { (x + s) as usize } else { x },
        y: if axis == 1 { (y + s) as usize } else { y },
        z: if axis == 2 { (z + s) as usize } else { z },
        w: if axis == 3 { (w + s) as usize } else { w },
    }
}

/// The eight faces of the cell `(x, y, z, w)`: one on each side along each axis.
pub open spec fn cube_faces(x: usize, y: usize, z: usize, w: usize) -> Set<Placement> {
    Set::new(
        |f: Placement|
            exists|axis: usize, upper: bool| axis < 4 && f == cell_face(axis, x, y, z, w, upper),
    )
}

/// A lattice whose only solid cell is `(x, y, z, w)` has exactly eight boundary faces,
/// the two faces of that cell along each of the four axes, so its mesh lists eight.
pub proof fn lemma_single_cell_mesh(blocks: Lattice, x: usize, y: usize, z: usize, w: usize, faces: Seq<Placement>)
    requires
        x < 16 && y < 16 && z < 16 && w < 16,
        forall|i: int, j: int, k: int, l: int|
            0 <= i < 16 && 0 <= j < 16 && 0 <= k < 16 && 0 <= l < 16 ==> #[trigger] blocks[i][j][k][l]
                == (i == x && j == y && k == z && l == w),
        is_mesh_of(blocks, faces),
    ensures
        faces.len() == 8,
        faces.to_set() == cube_faces(x, y, z, w),
{
    let listed = set![
        cell_face(0, x, y, z, w, false), cell_face(0, x, y, z, w, true),
        cell_face(1, x, y, z, w, false), cell_face(1, x, y, z, w, true),
        cell_face(2, x, y, z, w, false), cell_face(2, x, y, z, w, true),
        cell_face(3, x, y, z, w, false), cell_face(3, x, y, z, w, true),
    ];
    assert(listed =~= cube_faces(x, y, z, w)) by {
        assert forall|f: Placement| cube_faces(x, y, z, w).contains(f) implies listed.contains(f) by {
            let (axis, upper) = choose|axis: usize, upper: bool|
                axis < 4 && f == cell_face(axis, x, y, z, w, upper);
        }
        assert forall|f: Placement| listed.contains(f) implies cube_faces(x, y, z, w).contains(f) by {
            let axis = f.axis;
            let upper = f.coord(axis as int) != (if axis == 0 { x } else if axis == 1 { y } else if axis == 2 { z } else { w });
            assert(f == cell_face(axis, x, y, z, w, upper));
        }
    }
    assert forall|f: Placement| #[trigger] listed.contains(f) implies f.is_face_of(blocks) by {
        assert forall|k: int| 0 <= k < 4 implies #[trigger] f.coord(k) <= if k == f.axis {
            16int
        } else {
            15int
        } by {}
    }
    assert forall|f: Placement| #[trigger] f.is_face_of(blocks) implies listed.contains(f) by {
        assert(f.coord(0) <= 16 && f.coord(1) <= 16 && f.coord(2) <= 16 && f.coord(3) <= 16);
    }
    assert(faces.to_set() =~= listed) by {
        assert forall|f: Placement| faces.to_set().contains(f) implies listed.contains(f) by {
            let i = choose|i: int| 0 <= i < faces.len() && faces[i] == f;
            assert(faces[i].is_face_of(blocks));
        }
    }
    assert(faces.no_duplicates()) by {
        assert forall|i: int, j: int| 0 <= i < faces.len() && 0 <= j < faces.len() && i != j
            implies faces[i] != faces[j] by {
            if i < j {
                assert(faces[i].before(faces[j]));
            } else {
                assert(faces[j].before(faces[i]));
            }
        }
    }
    faces.unique_seq_to_set();
    assert(listed.len() == 8);
}

} // verus!
