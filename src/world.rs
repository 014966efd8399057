use vstd::prelude::*;

verus! {

/// Side length of the voxel lattice held by a [`World`].
pub const N: usize = 3;

/// The content of one lattice cell.
#[derive(Copy, Clone, PartialEq, Eq, Structural, Debug)]
pub enum Block {
    Air,
    Block,
}

impl Block {
    /// Light passes through air and nothing else.
    pub fn is_transparent(self) -> (r: bool)
        ensures
            r == (self == Block::Air),
    {
        match self {
            Block::Air => true,
            Block::Block => false,
        }
    }
}

/// Is every coordinate of `pos` inside `0..N`?
pub open spec fn in_lattice(pos: [isize; 4]) -> bool {
    forall|k: int| 0 <= k < 4 ==> 0 <= #[trigger] pos[k] < N as int
}

/// Position of a lattice cell in the row-major cell list.
pub open spec fn cell_index(pos: [isize; 4]) -> int {
    ((pos[0] * N as int + pos[1]) * N as int + pos[2]) * N as int + pos[3]
}

/// A bounded four-dimensional lattice of blocks, `N` cells along each axis.
pub struct World {
    blocks: Vec<Block>,
}

impl World {
    /// The cells in row-major order: the last coordinate varies fastest.
    pub closed spec fn cells(&self) -> Seq<Block> {
        self.blocks@
    }

    /// The cell list covers the lattice exactly.
    #[verifier::type_invariant]
    pub closed spec fn wf(&self) -> bool {
        self.blocks@.len() == N * N * N * N
    }

    /// What the world holds at `pos`; every position outside the lattice is air.
    pub open spec fn block_at(&self, pos: [isize; 4]) -> Block {
        if in_lattice(pos) {
            self.cells()[cell_index(pos)]
        } else {
            Block::Air
        }
    }

    /// A world whose every cell is solid.
    pub fn new() -> (w: World)
        ensures
            forall|pos: [isize; 4]| in_lattice(pos) ==> w.block_at(pos) == Block::Block,
    {
        let total: usize = N * N * N * N;
        let mut blocks: Vec<Block> = Vec::new();
        while blocks.len() < total
            invariant
                blocks.len() <= total,
                total == N * N * N * N,
                forall|i: int| 0 <= i < blocks.len() ==> blocks@[i] == Block::Block,
            decreases total - blocks.len(),
        {
            blocks.push(Block::Block);
        }
        let w = World { blocks };
        assert forall|pos: [isize; 4]| in_lattice(pos) implies w.block_at(pos) == Block::Block by {
            lemma_cell_index_bounds(pos);
        }
        w
    }

    /// The cell index of `pos`, where `pos` lies in the lattice.
    fn index(pos: [isize; 4]) -> (r: Option<usize>)
        ensures
            match r {
                Some(i) => in_lattice(pos) && i as int == cell_index(pos),
                None => !in_lattice(pos),
            },
    {
        let n = N as isize;
        if 0 <= pos[0] && pos[0] < n && 0 <= pos[1] && pos[1] < n && 0 <= pos[2] && pos[2] < n
            && 0 <= pos[3] && pos[3] < n {
            proof {
                lemma_cell_index_bounds(pos);
            }
            let i = ((pos[0] as usize * N + pos[1] as usize) * N + pos[2] as usize) * N
                + pos[3] as usize;
            Some(i)
        } else {
            None
        }
    }

    /// The block at `pos`; positions outside the lattice read as air.
    pub fn block(&self, pos: [isize; 4]) -> (r: &Block)
        ensures
            *r == self.block_at(pos),
    {
        proof {
            use_type_invariant(self);
        }
        match Self::index(pos) {
            Some(i) => {
                proof {
                    lemma_cell_index_bounds(pos);
                }
                &self.blocks[i]
            },
            None => &Block::Air,
        }
    }

    /// Mutable access to the block at `pos`, or `None` outside the lattice.
    pub fn block_mut(&mut self, pos: [isize; 4]) -> (r: Option<&mut Block>)
        ensures
            match r {
                Some(b) => {
                    &&& in_lattice(pos)
                    &&& *b == old(self).block_at(pos)
                    &&& final(self).cells() == old(self).cells().update(
                        cell_index(pos),
                        *final(b),
                    )
                },
                None => !in_lattice(pos) && *final(self) == *old(self),
            },
    {
        proof {
            use_type_invariant(&*self);
        }
        match Self::index(pos) {
            Some(i) => {
                proof {
                    lemma_cell_index_bounds(pos);
                }
                Some(&mut self.blocks[i])
            },
            None => None,
        }
    }
}

/// Every lattice position has a cell index inside the cell list.
pub proof fn lemma_cell_index_bounds(pos: [isize; 4])
    requires
        in_lattice(pos),
    ensures
        0 <= cell_index(pos) < N * N * N * N,
{
    assert(0 <= pos[0] < 3 && 0 <= pos[1] < 3 && 0 <= pos[2] < 3 && 0 <= pos[3] < 3);
}

impl World {
    /// Is the cell at world coordinates `(q0, q1, q2, q3)` solid? Outside the lattice, no.
    pub open spec fn solid(&self, q0: int, q1: int, q2: int, q3: int) -> bool {
        &&& 0 <= q0 < N as int
        &&& 0 <= q1 < N as int
        &&& 0 <= q2 < N as int
        &&& 0 <= q3 < N as int
        &&& self.cells()[((q0 * N as int + q1) * N as int + q2) * N as int + q3] == Block::Block
    }

    fn solid_exec(&self, q0: isize, q1: isize, q2: isize, q3: isize) -> (r: bool)
        requires
            self.wf(),
        ensures
            r == self.solid(q0 as int, q1 as int, q2 as int, q3 as int),
    {
        let b = self.block([q0, q1, q2, q3]);
        proof {
            let pos = [q0, q1, q2, q3];
            if 0 <= q0 < N as int && 0 <= q1 < N as int && 0 <= q2 < N as int && 0 <= q3 < N as int {
                assert(in_lattice(pos));
            } else {
                assert(!in_lattice(pos)) by {
                    if !(0 <= q0 < N as int) { assert(!(0 <= pos[0] < N as int)); }
                    if !(0 <= q1 < N as int) { assert(!(0 <= pos[1] < N as int)); }
                    if !(0 <= q2 < N as int) { assert(!(0 <= pos[2] < N as int)); }
                    if !(0 <= q3 < N as int) { assert(!(0 <= pos[3] < N as int)); }
                }
            }
        }
        !b.is_transparent()
    }
}

/// World axis of local axis `k` of the layers of orientation `o`: four axis orders, each
/// taken as is (`o` even) and with its first two axes swapped (`o` odd), which flips the
/// facet to face the other way.
pub open spec fn orient_axis(o: int, k: int) -> int {
    let row: Seq<int> = if o == 0 {
        seq![0, 1, 2, 3]
    } else if o == 1 {
        seq![1, 0, 2, 3]
    } else if o == 2 {
        seq![1, 0, 3, 2]
    } else if o == 3 {
        seq![0, 1, 3, 2]
    } else if o == 4 {
        seq![2, 3, 0, 1]
    } else if o == 5 {
        seq![3, 2, 0, 1]
    } else if o == 6 {
        seq![3, 2, 1, 0]
    } else {
        seq![2, 3, 1, 0]
    };
    row[k]
}

/// The world coordinate along world axis `k` of the local point `(c0, c1, c2, c3)` under
/// orientation `o`.
pub open spec fn world_coord(o: int, c0: int, c1: int, c2: int, c3: int, k: int) -> int {
    if orient_axis(o, 0) == k {
        c0
    } else if orient_axis(o, 1) == k {
        c1
    } else if orient_axis(o, 2) == k {
        c2
    } else {
        c3
    }
}

/// Local cell `(c0, c1, c2)` at layer `d` of orientation `o` is a visible face: across the
/// layer, air on one side and a solid cell on the other, in the direction `o` faces.
pub open spec fn exposed(w: World, o: int, d: int, c0: int, c1: int, c2: int) -> bool {
    let flip = o % 2 == 1;
    let upper = w.solid(
        world_coord(o, c0, c1, c2, d, 0),
        world_coord(o, c0, c1, c2, d, 1),
        world_coord(o, c0, c1, c2, d, 2),
        world_coord(o, c0, c1, c2, d, 3),
    );
    let lower = w.solid(
        world_coord(o, c0, c1, c2, d - 1, 0),
        world_coord(o, c0, c1, c2, d - 1, 1),
        world_coord(o, c0, c1, c2, d - 1, 2),
        world_coord(o, c0, c1, c2, d - 1, 3),
    );
    upper == flip && lower == !flip
}

/// A cell of a layer, in the layer's local coordinates.
#[derive(Copy, Clone, PartialEq, Eq, Structural, Debug)]
pub struct Cube {
    pub x: usize,
    pub y: usize,
    pub z: usize,
}

/// A cell of a texture sheet, in the sheet's coordinates.
#[derive(Copy, Clone, PartialEq, Eq, Structural, Debug)]
pub struct Square {
    pub u: usize,
    pub v: usize,
}

/// A texture sheet of a layer: the plane where local axis `axes[2]` equals `depth` plus a
/// small inset (towards the far side if `far`), spanned by local axes `axes[0]` and `axes[1]`,
/// with the visible squares on it.
pub struct Sheet {
    pub axes: [usize; 3],
    pub far: bool,
    pub depth: usize,
    pub squares: Vec<Square>,
}

/// One layer of the world's boundary: the hyperplane where world axis `dimensions[3]` equals
/// `depth`, with local axes `dimensions[0..3]`, facing the way `dir` says; the visible cells
/// on it, and its texture sheets.
pub struct Layer {
    pub dimensions: [usize; 4],
    pub dir: bool,
    pub depth: usize,
    pub cells: Vec<Cube>,
    pub sheets: Vec<Sheet>,
}

impl Cube {
    pub open spec fn before(self, x: int, y: int, z: int) -> bool {
        ||| self.x < x
        ||| self.x == x && self.y < y
        ||| self.x == x && self.y == y && self.z < z
    }
}

impl Square {
    pub open spec fn before(self, u: int, v: int) -> bool {
        ||| self.u < u
        ||| self.u == u && self.v < v
    }
}

/// `cells` lists, in scan order and each once, the visible cells of layer `d` of
/// orientation `o`.
pub open spec fn lists_cells(w: World, o: int, d: int, cells: Seq<Cube>) -> bool {
    &&& forall|i: int, j: int| 0 <= i < j < cells.len() ==> (#[trigger] cells[i]).before(
        (#[trigger] cells[j]).x as int,
        cells[j].y as int,
        cells[j].z as int,
    )
    &&& forall|i: int| 0 <= i < cells.len() ==> {
        let c = #[trigger] cells[i];
        c.x < N && c.y < N && c.z < N && exposed(w, o, d, c.x as int, c.y as int, c.z as int)
    }
    &&& forall|c: Cube|
        c.x < N && c.y < N && c.z < N && #[trigger] exposed(w, o, d, c.x as int, c.y as int, c.z as int)
            ==> cells.contains(c)
}

/// Local axes of the texture sheets of rotation `r`: `[r, r + 1, r + 2]`, modulo 3.
pub open spec fn sheet_axis(r: int, k: int) -> int {
    (r + k) % 3
}

/// The layer cell under square `(u, v)` of the sheet of rotation `r` at depth `j`.
pub open spec fn sheet_cube(r: int, u: int, v: int, j: int) -> (int, int, int) {
    if r == 0 {
        (u, v, j)
    } else if r == 1 {
        (j, u, v)
    } else {
        (v, j, u)
    }
}

/// `squares` lists, in scan order and each once, the squares of the sheet of rotation `r` at
/// depth `j` whose layer cell is visible.
pub open spec fn lists_squares(w: World, o: int, d: int, r: int, j: int, squares: Seq<Square>) -> bool {
    &&& forall|a: int, b: int| 0 <= a < b < squares.len() ==> (#[trigger] squares[a]).before(
        (#[trigger] squares[b]).u as int,
        squares[b].v as int,
    )
    &&& forall|a: int| 0 <= a < squares.len() ==> {
        let q = #[trigger] squares[a];
        let (x, y, z) = sheet_cube(r, q.u as int, q.v as int, j);
        q.u < N && q.v < N && exposed(w, o, d, x, y, z)
    }
    &&& forall|q: Square|
        q.u < N && q.v < N && #[trigger] exposed(
            w,
            o,
            d,
            sheet_cube(r, q.u as int, q.v as int, j).0,
            sheet_cube(r, q.u as int, q.v as int, j).1,
            sheet_cube(r, q.u as int, q.v as int, j).2,
        ) ==> squares.contains(q)
}

/// Sheet `s` of a layer of orientation `o` at depth `d` (`s` counts rotations, then the
/// near and far inset, then depths).
pub open spec fn sheet_ok(w: World, o: int, d: int, s: int, sh: Sheet) -> bool {
    let r = s / (2 * N as int);
    let far = (s % (2 * N as int)) / N as int == 1;
    let j = s % N as int;
    &&& forall|k: int| 0 <= k < 3 ==> sh.axes[k] == sheet_axis(r, k)
    &&& sh.far == far
    &&& sh.depth == j
    &&& lists_squares(w, o, d, r, j, sh.squares@)
}

/// Layer `q` of the world's mesh: orientation `q / (N + 1)`, depth `q % (N + 1)`.
pub open spec fn layer_ok(w: World, q: int, l: Layer) -> bool {
    let o = q / (N as int + 1);
    let d = q % (N as int + 1);
    &&& forall|k: int| 0 <= k < 4 ==> l.dimensions[k] == orient_axis(o, k)
    &&& l.dir == (o % 2 == 1)
    &&& l.depth == d
    &&& lists_cells(w, o, d, l.cells@)
    &&& l.sheets@.len() == 6 * N
    &&& forall|s: int| 0 <= s < 6 * N ==> sheet_ok(w, o, d, s, #[trigger] l.sheets@[s])
}

fn orientation(o: usize) -> (r: [usize; 4])
    requires
        o < 8,
    ensures
        forall|k: int| 0 <= k < 4 ==> r[k] == orient_axis(o as int, k),
{
    let r = if o == 0 {
        [0, 1, 2, 3]
    } else if o == 1 {
        [1, 0, 2, 3]
    } else if o == 2 {
        [1, 0, 3, 2]
    } else if o == 3 {
        [0, 1, 3, 2]
    } else if o == 4 {
        [2, 3, 0, 1]
    } else if o == 5 {
        [3, 2, 0, 1]
    } else if o == 6 {
        [3, 2, 1, 0]
    } else {
        [2, 3, 1, 0]
    };
    proof {
        assert forall|k: int| 0 <= k < 4 implies r[k] == orient_axis(o as int, k) by {
            if o == 0 {
                assert(seq![0int, 1, 2, 3][k] == r[k]);
            }
        }
    }
    r
}

fn world_coord_exec(dims: [usize; 4], o: usize, c0: isize, c1: isize, c2: isize, c3: isize, k: usize) -> (r: isize)
    requires
        o < 8,
        forall|i: int| 0 <= i < 4 ==> dims[i] == orient_axis(o as int, i),
    ensures
        r == world_coord(o as int, c0 as int, c1 as int, c2 as int, c3 as int, k as int),
{
    if dims[0] == k {
        c0
    } else if dims[1] == k {
        c1
    } else if dims[2] == k {
        c2
    } else {
        c3
    }
}

impl World {
    fn exposed_exec(&self, dims: [usize; 4], o: usize, d: usize, c0: usize, c1: usize, c2: usize) -> (r: bool)
        requires
            self.wf(),
            o < 8,
            forall|i: int| 0 <= i < 4 ==> dims[i] == orient_axis(o as int, i),
            d <= N,
            c0 < N && c1 < N && c2 < N,
        ensures
            r == exposed(*self, o as int, d as int, c0 as int, c1 as int, c2 as int),
    {
        let a = c0 as isize;
        let b = c1 as isize;
        let c = c2 as isize;
        let up = d as isize;
        let down = up - 1;
        let upper = self.solid_exec(
            world_coord_exec(dims, o, a, b, c, up, 0),
            world_coord_exec(dims, o, a, b, c, up, 1),
            world_coord_exec(dims, o, a, b, c, up, 2),
            world_coord_exec(dims, o, a, b, c, up, 3),
        );
        let lower = self.solid_exec(
            world_coord_exec(dims, o, a, b, c, down, 0),
            world_coord_exec(dims, o, a, b, c, down, 1),
            world_coord_exec(dims, o, a, b, c, down, 2),
            world_coord_exec(dims, o, a, b, c, down, 3),
        );
        let flip = o % 2 == 1;
        upper == flip && lower == !flip
    }

    /// The visible cells of layer `d` of orientation `o`, in scan order.
    fn layer_cells(&self, dims: [usize; 4], o: usize, d: usize) -> (cells: Vec<Cube>)
        requires
            self.wf(),
            o < 8,
            forall|i: int| 0 <= i < 4 ==> dims[i] == orient_axis(o as int, i),
            d <= N,
        ensures
            lists_cells(*self, o as int, d as int, cells@),
    {
        let mut cells: Vec<Cube> = Vec::new();
        let mut x: usize = 0;
        while x < N
            invariant
                self.wf(),
                o < 8,
                forall|i: int| 0 <= i < 4 ==> dims[i] == orient_axis(o as int, i),
                d <= N,
                x <= N,
                forall|i: int, j: int| 0 <= i < j < cells@.len() ==> (#[trigger] cells@[i]).before((#[trigger] cells@[j]).x as int, cells@[j].y as int, cells@[j].z as int),
                forall|i: int| 0 <= i < cells@.len() ==> {
                    let c = #[trigger] cells@[i];
                    c.before(x as int, 0, 0) && c.x < N && c.y < N && c.z < N && exposed(*self, o as int, d as int, c.x as int, c.y as int, c.z as int)
                },
                forall|c: Cube| c.before(x as int, 0, 0) && c.x < N && c.y < N && c.z < N
                    && #[trigger] exposed(*self, o as int, d as int, c.x as int, c.y as int, c.z as int) ==> cells@.contains(c),
            decreases N - x,
        {
            let mut y: usize = 0;
            while y < N
                invariant
                    self.wf(),
                    o < 8,
                    forall|i: int| 0 <= i < 4 ==> dims[i] == orient_axis(o as int, i),
                    d <= N,
                    x < N,
                    y <= N,
                    forall|i: int, j: int| 0 <= i < j < cells@.len() ==> (#[trigger] cells@[i]).before((#[trigger] cells@[j]).x as int, cells@[j].y as int, cells@[j].z as int),
                    forall|i: int| 0 <= i < cells@.len() ==> {
                        let c = #[trigger] cells@[i];
                        c.before(x as int, y as int, 0) && c.x < N && c.y < N && c.z < N && exposed(*self, o as int, d as int, c.x as int, c.y as int, c.z as int)
                    },
                    forall|c: Cube| c.before(x as int, y as int, 0) && c.x < N && c.y < N && c.z < N
                        && #[trigger] exposed(*self, o as int, d as int, c.x as int, c.y as int, c.z as int) ==> cells@.contains(c),
                decreases N - y,
            {
                let mut z: usize = 0;
                while z < N
                    invariant
                        self.wf(),
                        o < 8,
                        forall|i: int| 0 <= i < 4 ==> dims[i] == orient_axis(o as int, i),
                        d <= N,
                        x < N,
                        y < N,
                        z <= N,
                        forall|i: int, j: int| 0 <= i < j < cells@.len() ==> (#[trigger] cells@[i]).before((#[trigger] cells@[j]).x as int, cells@[j].y as int, cells@[j].z as int),
                        forall|i: int| 0 <= i < cells@.len() ==> {
                            let c = #[trigger] cells@[i];
                            c.before(x as int, y as int, z as int) && c.x < N && c.y < N && c.z < N && exposed(*self, o as int, d as int, c.x as int, c.y as int, c.z as int)
                        },
                        forall|c: Cube| c.before(x as int, y as int, z as int) && c.x < N && c.y < N && c.z < N
                            && #[trigger] exposed(*self, o as int, d as int, c.x as int, c.y as int, c.z as int) ==> cells@.contains(c),
                    decreases N - z,
                {
                    let ghost prev = cells@;
                    let cube = Cube { x, y, z };
                    if self.exposed_exec(dims, o, d, x, y, z) {
                        cells.push(cube);
                    }
                    proof {
                        assert forall|c: Cube| c.before(x as int, y as int, z as int + 1) && c.x < N && c.y < N && c.z < N
                            && #[trigger] exposed(*self, o as int, d as int, c.x as int, c.y as int, c.z as int) implies cells@.contains(c) by {
                            if c.before(x as int, y as int, z as int) {
                                let i = choose|i: int| 0 <= i < prev.len() && prev[i] == c;
                                assert(cells@[i] == c);
                            } else {
                                assert(c == cube);
                                assert(cells@[cells@.len() - 1] == c);
                            }
                        }
                    }
                    z = z + 1;
                }
                y = y + 1;
            }
            x = x + 1;
        }
        cells
    }
}

impl World {
    /// Sheet of rotation `r` at depth `j` of layer `d` of orientation `o`: its visible squares.
    fn sheet_squares(&self, dims: [usize; 4], o: usize, d: usize, r: usize, j: usize) -> (squares: Vec<Square>)
        requires
            self.wf(),
            o < 8,
            forall|i: int| 0 <= i < 4 ==> dims[i] == orient_axis(o as int, i),
            d <= N,
            r < 3,
            j < N,
        ensures
            lists_squares(*self, o as int, d as int, r as int, j as int, squares@),
    {
        let mut squares: Vec<Square> = Vec::new();
        let mut u: usize = 0;
        while u < N
            invariant
                self.wf(),
                o < 8,
                forall|i: int| 0 <= i < 4 ==> dims[i] == orient_axis(o as int, i),
                d <= N,
                r < 3,
                j < N,
                u <= N,
                forall|a: int, b: int| 0 <= a < b < squares@.len() ==> (#[trigger] squares@[a]).before((#[trigger] squares@[b]).u as int, squares@[b].v as int),
                forall|a: int| 0 <= a < squares@.len() ==> {
                    let q = #[trigger] squares@[a];
                    let (x, y, z) = sheet_cube(r as int, q.u as int, q.v as int, j as int);
                    q.before(u as int, 0) && q.u < N && q.v < N && exposed(*self, o as int, d as int, x, y, z)
                },
                forall|q: Square| q.before(u as int, 0) && q.u < N && q.v < N && #[trigger] exposed(
                    *self,
                    o as int,
                    d as int,
                    sheet_cube(r as int, q.u as int, q.v as int, j as int).0,
                    sheet_cube(r as int, q.u as int, q.v as int, j as int).1,
                    sheet_cube(r as int, q.u as int, q.v as int, j as int).2,
                ) ==> squares@.contains(q),
            decreases N - u,
        {
            let mut v: usize = 0;
            while v < N
                invariant
                    self.wf(),
                    o < 8,
                    forall|i: int| 0 <= i < 4 ==> dims[i] == orient_axis(o as int, i),
                    d <= N,
                    r < 3,
                    j < N,
                    u < N,
                    v <= N,
                    forall|a: int, b: int| 0 <= a < b < squares@.len() ==> (#[trigger] squares@[a]).before((#[trigger] squares@[b]).u as int, squares@[b].v as int),
                    forall|a: int| 0 <= a < squares@.len() ==> {
                        let q = #[trigger] squares@[a];
                        let (x, y, z) = sheet_cube(r as int, q.u as int, q.v as int, j as int);
                        q.before(u as int, v as int) && q.u < N && q.v < N && exposed(*self, o as int, d as int, x, y, z)
                    },
                    forall|q: Square| q.before(u as int, v as int) && q.u < N && q.v < N && #[trigger] exposed(
                        *self,
                        o as int,
                        d as int,
                        sheet_cube(r as int, q.u as int, q.v as int, j as int).0,
                        sheet_cube(r as int, q.u as int, q.v as int, j as int).1,
                        sheet_cube(r as int, q.u as int, q.v as int, j as int).2,
                    ) ==> squares@.contains(q),
                decreases N - v,
            {
                let ghost prev = squares@;
                let sq = Square { u, v };
                let (x, y, z) = if r == 0 {
                    (u, v, j)
                } else if r == 1 {
                    (j, u, v)
                } else {
                    (v, j, u)
                };
                if self.exposed_exec(dims, o, d, x, y, z) {
                    squares.push(sq);
                }
                proof {
                    assert forall|q: Square| q.before(u as int, v as int + 1) && q.u < N && q.v < N && #[trigger] exposed(
                        *self,
                        o as int,
                        d as int,
                        sheet_cube(r as int, q.u as int, q.v as int, j as int).0,
                        sheet_cube(r as int, q.u as int, q.v as int, j as int).1,
                        sheet_cube(r as int, q.u as int, q.v as int, j as int).2,
                    ) implies squares@.contains(q) by {
                        if q.before(u as int, v as int) {
                            let i = choose|i: int| 0 <= i < prev.len() && prev[i] == q;
                            assert(squares@[i] == q);
                        } else {
                            assert(q == sq);
                            assert(squares@[squares@.len() - 1] == q);
                        }
                    }
                }
                v = v + 1;
            }
            u = u + 1;
        }
        squares
    }

    /// The world's boundary, layer by layer: for each of eight orientations (four axis
    /// orders, each facing both ways) and each depth `0..=N` along its last axis, the cells
    /// where air meets a solid cell facing that way, and the texture sheets that cover them.
    pub fn mesh(&self) -> (layers: Vec<Layer>)
        ensures
            layers@.len() == 8 * (N + 1),
            forall|q: int| 0 <= q < layers@.len() ==> layer_ok(*self, q, #[trigger] layers@[q]),
    {
        proof {
            use_type_invariant(self);
        }
        let mut layers: Vec<Layer> = Vec::new();
        let mut q: usize = 0;
        while q < 8 * (N + 1)
            invariant
                self.wf(),
                q <= 8 * (N + 1),
                layers@.len() == q,
                forall|p: int| 0 <= p < q ==> layer_ok(*self, p, #[trigger] layers@[p]),
            decreases 8 * (N + 1) - q,
        {
            let o = q / (N + 1);
            let d = q % (N + 1);
            let dims = orientation(o);
            let cells = self.layer_cells(dims, o, d);
            let mut sheets: Vec<Sheet> = Vec::new();
            let mut s: usize = 0;
            while s < 6 * N
                invariant
                    self.wf(),
                    o < 8,
                    forall|i: int| 0 <= i < 4 ==> dims[i] == orient_axis(o as int, i),
                    d <= N,
                    s <= 6 * N,
                    sheets@.len() == s,
                    forall|t: int| 0 <= t < s ==> sheet_ok(*self, o as int, d as int, t, #[trigger] sheets@[t]),
                decreases 6 * N - s,
            {
                let r = s / (2 * N);
                let far = (s % (2 * N)) / N == 1;
                let j = s % N;
                let squares = self.sheet_squares(dims, o, d, r, j);
                let axes = [r, (r + 1) % 3, (r + 2) % 3];
                let sh = Sheet { axes, far, depth: j, squares };
                proof {
                    assert forall|k: int| 0 <= k < 3 implies sh.axes[k] == sheet_axis(r as int, k) by {}
                }
                sheets.push(sh);
                proof {
                    assert(sheets@[s as int] == sh);
                }
                s = s + 1;
            }
            let layer = Layer { dimensions: dims, dir: o % 2 == 1, depth: d, cells, sheets };
            layers.push(layer);
            proof {
                assert(layers@[q as int] == layer);
            }
            q = q + 1;
        }
        layers
    }
}

} // verus!
