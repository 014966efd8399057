use vstd::prelude::*;

verus! {

/// Bit pattern of `1.0f64`. For the non-negative doubles, bit patterns order as the
/// values do, so the patterns in `0..=ONE_BITS` order the parameters in `[0, 1]`.
pub const ONE_BITS: u64 = 0x3FF0_0000_0000_0000;

/// Edge `edge` of contour `poly` of a polygon: it runs from vertex `edge` to the next
/// vertex of that contour, cyclically.
#[derive(Debug, Copy, Clone, PartialEq, Eq, Structural, PartialOrd, Ord)]
pub struct PolygonEdge {
    pub poly: usize,
    pub edge: usize,
}

impl PolygonEdge {
    pub fn new(poly: usize, edge: usize) -> (r: Self)
        ensures
            r.poly == poly && r.edge == edge,
    {
        Self { poly, edge }
    }

    /// The edge exists in a polygon whose contours have `sizes` vertices.
    pub open spec fn within(self, sizes: Seq<usize>) -> bool {
        self.poly < sizes.len() && self.edge < sizes[self.poly as int]
    }
}

/// Position of a point along an edge, as the bit pattern of its parameter in `[0, 1]`:
/// comparing keys compares positions.
#[derive(Debug, Copy, Clone, PartialEq, Eq, Structural, PartialOrd, Ord)]
pub struct Alpha(pub u64);

impl Alpha {
    /// The key of the parameter whose bit pattern is `bits`, if that parameter lies in
    /// `[0, 1]`.
    pub fn from_bits(bits: u64) -> (r: Option<Alpha>)
        ensures
            r == (if bits <= ONE_BITS {
                Some(Alpha(bits))
            } else {
                None
            }),
    {
        if bits <= ONE_BITS {
            Some(Alpha(bits))
        } else {
            None
        }
    }
}

/// A point where edge `first` of the first polygon meets edge `second` of the second,
/// at position `first_alpha` along the one and `second_alpha` along the other.
#[derive(Debug, Copy, Clone, PartialEq, Eq, Structural)]
pub struct Crossing {
    pub first: PolygonEdge,
    pub first_alpha: Alpha,
    pub second: PolygonEdge,
    pub second_alpha: Alpha,
}

impl Crossing {
    /// The edge this crossing lies on, in the second polygon if `second`, else the first.
    pub open spec fn edge_in(self, second: bool) -> PolygonEdge {
        if second {
            self.second
        } else {
            self.first
        }
    }

    pub open spec fn key_in(self, second: bool) -> u64 {
        if second {
            self.second_alpha.0
        } else {
            self.first_alpha.0
        }
    }
}

/// A crossing as recorded on one edge of one polygon.
#[derive(Debug, Copy, Clone, PartialEq, Eq, Structural)]
pub struct Entry {
    /// Position along this edge.
    pub key: Alpha,
    /// Index of the crossing, in the list of crossings, that this record came from.
    pub crossing: usize,
    /// The edge of the other polygon that is crossed.
    pub other: PolygonEdge,
    /// Position along that other edge.
    pub other_key: Alpha,
    /// Does the contour enter the other polygon here (rather than leave it)?
    pub entering: bool,
}

/// Index of the last crossing of `cs` at position `k` along edge `e` (of the second
/// polygon if `second`): where two crossings share a position, the later one stands.
pub open spec fn latest(cs: Seq<Crossing>, second: bool, e: PolygonEdge, k: u64) -> Option<int>
    decreases cs.len(),
{
    if cs.len() == 0 {
        None
    } else if cs.last().edge_in(second) == e && cs.last().key_in(second) == k {
        Some(cs.len() - 1)
    } else {
        latest(cs.drop_last(), second, e, k)
    }
}

/// `entries` records, by increasing position, the crossings of `cs` on edge `e`: one
/// entry per position, from the last crossing there.
pub open spec fn records_edge(cs: Seq<Crossing>, second: bool, e: PolygonEdge, entries: Seq<Entry>) -> bool {
    &&& forall|m: int, l: int| 0 <= m < l < entries.len() ==> (#[trigger] entries[m]).key.0 < (#[trigger] entries[l]).key.0
    &&& forall|m: int| 0 <= m < entries.len() ==> {
        let en = #[trigger] entries[m];
        &&& latest(cs, second, e, en.key.0) == Some(en.crossing as int)
        &&& en.other == cs[en.crossing as int].edge_in(!second)
        &&& en.other_key.0 == cs[en.crossing as int].key_in(!second)
    }
    &&& forall|i: int| 0 <= i < cs.len() && (#[trigger] cs[i]).edge_in(second) == e ==>
        exists|m: int| 0 <= m < entries.len() && (#[trigger] entries[m]).key.0 == cs[i].key_in(second)
}

proof fn lemma_latest_bounds(cs: Seq<Crossing>, second: bool, e: PolygonEdge, k: u64)
    ensures
        match latest(cs, second, e, k) {
            Some(i) => 0 <= i < cs.len() && cs[i].edge_in(second) == e && cs[i].key_in(second) == k,
            None => true,
        },
    decreases cs.len(),
{
    if cs.len() > 0 {
        lemma_latest_bounds(cs.drop_last(), second, e, k);
    }
}

/// The crossings of `cs` on edge `e`, recorded by increasing position.
fn edge_entries(cs: &Vec<Crossing>, second: bool, e: PolygonEdge) -> (entries: Vec<Entry>)
    ensures
        records_edge(cs@, second, e, entries@),
{
    let mut entries: Vec<Entry> = Vec::new();
    let mut i: usize = 0;
    while i < cs.len()
        invariant
            i <= cs.len(),
            records_edge(cs@.take(i as int), second, e, entries@),
        decreases cs.len() - i,
    {
        let c = cs[i];
        let ghost before = cs@.take(i as int);
        let ghost after = cs@.take(i as int + 1);
        let ghost prev = entries@;
        proof {
            assert(after.drop_last() =~= before);
            assert forall|k: u64| #![auto] (c.edge_in(second) != e || c.key_in(second) != k)
                implies latest(after, second, e, k) == latest(before, second, e, k) by {}
        }
        let (edge, key, other, other_key) = if second {
            (c.second, c.second_alpha, c.first, c.first_alpha)
        } else {
            (c.first, c.first_alpha, c.second, c.second_alpha)
        };
        if edge == e {
            let en = Entry { key, crossing: i, other, other_key, entering: false };
            let mut p: usize = 0;
            while p < entries.len() && entries[p].key.0 < key.0
                invariant
                    p <= entries.len(),
                    forall|m: int| 0 <= m < p ==> (#[trigger] entries@[m]).key.0 < key.0,
                decreases entries.len() - p,
            {
                p = p + 1;
            }
            if p < entries.len() && entries[p].key.0 == key.0 {
                entries.set(p, en);
                proof {
                    assert forall|j: int| 0 <= j < after.len() && (#[trigger] after[j]).edge_in(second) == e
                        implies exists|m: int| 0 <= m < entries@.len() && (#[trigger] entries@[m]).key.0 == after[j].key_in(second) by {
                        if j < before.len() {
                            assert(before[j] == after[j]);
                            let m = choose|m: int| 0 <= m < prev.len() && (#[trigger] prev[m]).key.0 == before[j].key_in(second);
                            assert(entries@[m].key.0 == prev[m].key.0);
                        } else {
                            assert(entries@[p as int].key.0 == after[j].key_in(second));
                        }
                    }
                    assert forall|m: int| 0 <= m < entries@.len() implies {
                        let en = #[trigger] entries@[m];
                        &&& latest(after, second, e, en.key.0) == Some(en.crossing as int)
                        &&& en.other == after[en.crossing as int].edge_in(!second)
                        &&& en.other_key.0 == after[en.crossing as int].key_in(!second)
                    } by {
                        if m != p {
                            lemma_latest_bounds(before, second, e, prev[m].key.0);
                            assert(after[prev[m].crossing as int] == before[prev[m].crossing as int]);
                        }
                    }
                }
            } else {
                entries.insert(p, en);
                proof {
                    assert forall|m: int| 0 <= m < p implies #[trigger] entries@[m] == prev[m] by {}
                    assert forall|m: int| p < m < entries@.len() implies #[trigger] entries@[m] == prev[m - 1] by {}
                    assert forall|j: int| 0 <= j < after.len() && (#[trigger] after[j]).edge_in(second) == e
                        implies exists|m: int| 0 <= m < entries@.len() && (#[trigger] entries@[m]).key.0 == after[j].key_in(second) by {
                        if j < before.len() {
                            assert(before[j] == after[j]);
                            let m = choose|m: int| 0 <= m < prev.len() && (#[trigger] prev[m]).key.0 == before[j].key_in(second);
                            if m < p {
                                assert(entries@[m].key.0 == prev[m].key.0);
                            } else {
                                assert(entries@[m + 1].key.0 == prev[m].key.0);
                            }
                        } else {
                            assert(entries@[p as int].key.0 == after[j].key_in(second));
                        }
                    }
                    assert forall|m: int| 0 <= m < entries@.len() implies {
                        let en = #[trigger] entries@[m];
                        &&& latest(after, second, e, en.key.0) == Some(en.crossing as int)
                        &&& en.other == after[en.crossing as int].edge_in(!second)
                        &&& en.other_key.0 == after[en.crossing as int].key_in(!second)
                    } by {
                        if m != p {
                            let q = if m < p { m } else { m - 1 };
                            assert(entries@[m] == prev[q]);
                            lemma_latest_bounds(before, second, e, prev[q].key.0);
                            assert(after[prev[q].crossing as int] == before[prev[q].crossing as int]);
                        }
                    }
                }
            }
        } else {
            proof {
                assert forall|j: int| 0 <= j < after.len() && (#[trigger] after[j]).edge_in(second) == e
                    implies exists|m: int| 0 <= m < entries@.len() && (#[trigger] entries@[m]).key.0 == after[j].key_in(second) by {
                    assert(before[j] == after[j]);
                }
                assert forall|m: int| 0 <= m < entries@.len() implies {
                    let en = #[trigger] entries@[m];
                    &&& latest(after, second, e, en.key.0) == Some(en.crossing as int)
                    &&& en.other == after[en.crossing as int].edge_in(!second)
                    &&& en.other_key.0 == after[en.crossing as int].key_in(!second)
                } by {
                    lemma_latest_bounds(before, second, e, prev[m].key.0);
                    assert(after[prev[m].crossing as int] == before[prev[m].crossing as int]);
                }
            }
        }
        i = i + 1;
    }
    proof {
        assert(cs@.take(cs.len() as int) =~= cs@);
    }
    entries
}

/// How many crossings are recorded on the edges of `row` before edge `j`.
pub open spec fn entries_before(row: Seq<Vec<Entry>>, j: int) -> int
    decreases j,
{
    if j <= 0 {
        0
    } else {
        entries_before(row, j - 1) + row[j - 1]@.len()
    }
}

/// Walking a contour from its first vertex, whose containment in the other polygon is
/// `seed`, each crossing flips the side: the `c`-th crossing met (from zero) enters the
/// other polygon when `seed` and the parity of `c` agree.
pub open spec fn enters(seed: bool, c: int) -> bool {
    seed == (c % 2 == 1)
}

/// `t` records, contour by contour and edge by edge, the crossings of `cs` on a polygon
/// with contours of `sizes` vertices (the second polygon if `second`), each marked as
/// entering or leaving the other polygon from the first-vertex containment `seeds`.
pub open spec fn records_polygon(
    cs: Seq<Crossing>,
    second: bool,
    sizes: Seq<usize>,
    seeds: Seq<bool>,
    t: Seq<Vec<Vec<Entry>>>,
) -> bool {
    &&& t.len() == sizes.len()
    &&& forall|i: int| 0 <= i < t.len() ==> (#[trigger] t[i])@.len() == sizes[i]
    &&& forall|i: int, j: int|
        0 <= i < t.len() && 0 <= j < sizes[i] ==> records_edge(
            cs,
            second,
            PolygonEdge { poly: i as usize, edge: j as usize },
            #[trigger] t[i]@[j]@,
        )
    &&& forall|i: int, j: int, m: int|
        0 <= i < t.len() && 0 <= j < sizes[i] && 0 <= m < t[i]@[j]@.len() ==> (#[trigger] t[i]@[j]@[m]).entering
            == enters(seeds[i], entries_before(t[i]@, j) + m)
}

/// The crossings on each edge of contour `poly` (of `n` vertices), marked by the
/// alternation that starts from `seed`.
fn contour_entries(cs: &Vec<Crossing>, second: bool, poly: usize, n: usize, seed: bool) -> (row: Vec<Vec<Entry>>)
    ensures
        row@.len() == n,
        forall|j: int| 0 <= j < n ==> records_edge(
            cs@,
            second,
            PolygonEdge { poly, edge: j as usize },
            #[trigger] row@[j]@,
        ),
        forall|j: int, m: int| 0 <= j < n && 0 <= m < row@[j]@.len() ==> (#[trigger] row@[j]@[m]).entering
            == enters(seed, entries_before(row@, j) + m),
{
    let mut row: Vec<Vec<Entry>> = Vec::new();
    let mut side = seed;
    let ghost mut count: int = 0;
    let mut j: usize = 0;
    while j < n
        invariant
            j <= n,
            row@.len() == j,
            count == entries_before(row@, j as int),
            side == (seed != (count % 2 == 1)),
            forall|jj: int| 0 <= jj < j ==> records_edge(
                cs@,
                second,
                PolygonEdge { poly, edge: jj as usize },
                #[trigger] row@[jj]@,
            ),
            forall|jj: int, m: int| 0 <= jj < j && 0 <= m < row@[jj]@.len() ==> (#[trigger] row@[jj]@[m]).entering
                == enters(seed, entries_before(row@, jj) + m),
        decreases n - j,
    {
        let raw = edge_entries(cs, second, PolygonEdge::new(poly, j));
        let mut marked: Vec<Entry> = Vec::new();
        let ghost start = count;
        let mut m: usize = 0;
        while m < raw.len()
            invariant
                m <= raw.len(),
                marked@.len() == m,
                count == start + m,
                side == (seed != (count % 2 == 1)),
                forall|l: int| 0 <= l < m ==> (#[trigger] marked@[l]) == (Entry { entering: enters(seed, start + l), ..raw@[l] }),
            decreases raw.len() - m,
        {
            side = !side;
            let mut en = raw[m];
            en.entering = side;
            marked.push(en);
            proof {
                count = count + 1;
            }
            m = m + 1;
        }
        proof {
            assert(marked@.len() == raw@.len());
            assert forall|mm: int, l: int| 0 <= mm < l < marked@.len() implies (#[trigger] marked@[mm]).key.0 < (#[trigger] marked@[l]).key.0 by {
                assert(marked@[mm].key == raw@[mm].key && marked@[l].key == raw@[l].key);
            }
            assert forall|i: int| 0 <= i < cs@.len() && (#[trigger] cs@[i]).edge_in(second) == PolygonEdge { poly, edge: j }
                implies exists|l: int| 0 <= l < marked@.len() && (#[trigger] marked@[l]).key.0 == cs@[i].key_in(second) by {
                let l = choose|l: int| 0 <= l < raw@.len() && (#[trigger] raw@[l]).key.0 == cs@[i].key_in(second);
                assert(marked@[l].key == raw@[l].key);
            }
            assert forall|l: int| 0 <= l < marked@.len() implies {
                let en = #[trigger] marked@[l];
                &&& latest(cs@, second, PolygonEdge { poly, edge: j }, en.key.0) == Some(en.crossing as int)
                &&& en.other == cs@[en.crossing as int].edge_in(!second)
                &&& en.other_key.0 == cs@[en.crossing as int].key_in(!second)
            } by {
                assert(marked@[l].key == raw@[l].key && marked@[l].crossing == raw@[l].crossing);
            }
        }
        let ghost prev = row@;
        row.push(marked);
        proof {
            assert forall|jj: int| 0 <= jj <= j implies entries_before(row@, jj) == entries_before(prev, jj) by {
                lemma_entries_before_prefix(row@, prev, jj);
            }
            assert(entries_before(row@, j as int + 1) == count);
        }
        j = j + 1;
    }
    row
}

/// `entries_before` reads only the edges before `j`.
proof fn lemma_entries_before_prefix(a: Seq<Vec<Entry>>, b: Seq<Vec<Entry>>, j: int)
    requires
        0 <= j <= b.len(),
        j <= a.len(),
        forall|l: int| 0 <= l < j ==> a[l] == b[l],
    ensures
        entries_before(a, j) == entries_before(b, j),
    decreases j,
{
    if j > 0 {
        lemma_entries_before_prefix(a, b, j - 1);
    }
}

/// The crossing table of a whole polygon with contours of `sizes` vertices.
fn polygon_entries(cs: &Vec<Crossing>, second: bool, sizes: &Vec<usize>, seeds: &Vec<bool>) -> (t: Vec<Vec<Vec<Entry>>>)
    requires
        seeds@.len() == sizes@.len(),
    ensures
        records_polygon(cs@, second, sizes@, seeds@, t@),
{
    let mut t: Vec<Vec<Vec<Entry>>> = Vec::new();
    let mut i: usize = 0;
    while i < sizes.len()
        invariant
            i <= sizes@.len(),
            seeds@.len() == sizes@.len(),
            t@.len() == i,
            forall|ii: int| 0 <= ii < i ==> (#[trigger] t@[ii])@.len() == sizes@[ii],
            forall|ii: int, j: int|
                0 <= ii < i && 0 <= j < sizes@[ii] ==> records_edge(
                    cs@,
                    second,
                    PolygonEdge { poly: ii as usize, edge: j as usize },
                    #[trigger] t@[ii]@[j]@,
                ),
            forall|ii: int, j: int, m: int|
                0 <= ii < i && 0 <= j < sizes@[ii] && 0 <= m < t@[ii]@[j]@.len() ==> (#[trigger] t@[ii]@[j]@[m]).entering
                    == enters(seeds@[ii], entries_before(t@[ii]@, j) + m),
        decreases sizes@.len() - i,
    {
        let row = contour_entries(cs, second, i, sizes[i], seeds[i]);
        t.push(row);
        i = i + 1;
    }
    t
}

/// A corner of an output contour: vertex `vertex` of contour `poly` of one of the two
/// input polygons (the second if `second`), or a recorded crossing, by its index.
#[derive(Debug, Copy, Clone, PartialEq, Eq, Structural)]
pub enum Corner {
    Vertex { second: bool, poly: usize, vertex: usize },
    Crossing(usize),
}

/// The crossings recorded on edge `e` of a crossing table.
pub open spec fn row_of(t: Seq<Vec<Vec<Entry>>>, e: PolygonEdge) -> Seq<Entry> {
    t[e.poly as int]@[e.edge as int]@
}

/// The next edge of a contour with `n` edges.
pub open spec fn next_edge(j: int, n: int) -> int {
    if j + 1 >= n {
        0
    } else {
        j + 1
    }
}

/// The previous edge of a contour with `n` edges.
pub open spec fn prev_edge(j: int, n: int) -> int {
    if j <= 0 {
        n - 1
    } else {
        j - 1
    }
}

/// Leaving edge `j` of contour `poly` forwards: the vertices passed, up to the first
/// edge that carries a crossing (looking at most `steps` edges on), and that edge.
pub open spec fn sweep_forward(row: Seq<Vec<Entry>>, second: bool, poly: usize, j: int, steps: nat) -> (Seq<Corner>, int)
    decreases steps,
{
    if steps == 0 {
        (seq![], j)
    } else {
        let k = next_edge(j, row.len() as int);
        let v = Corner::Vertex { second, poly, vertex: k as usize };
        if row[k]@.len() > 0 {
            (seq![v], k)
        } else {
            let (vs, l) = sweep_forward(row, second, poly, k, (steps - 1) as nat);
            (seq![v] + vs, l)
        }
    }
}

/// Leaving edge `j` of contour `poly` backwards: the vertices passed, down to the first
/// earlier edge that carries a crossing (looking at most `steps` edges back), and that edge.
pub open spec fn sweep_backward(row: Seq<Vec<Entry>>, second: bool, poly: usize, j: int, steps: nat) -> (Seq<Corner>, int)
    decreases steps,
{
    if steps == 0 {
        (seq![], j)
    } else {
        let k = prev_edge(j, row.len() as int);
        let v = Corner::Vertex { second, poly, vertex: j as usize };
        if row[k]@.len() > 0 {
            (seq![v], k)
        } else {
            let (vs, l) = sweep_backward(row, second, poly, k, (steps - 1) as nat);
            (seq![v] + vs, l)
        }
    }
}

/// From crossing `m` on edge `e`, the next crossing along the contour, and the vertices
/// passed on the way.
pub open spec fn ahead(t: Seq<Vec<Vec<Entry>>>, second: bool, e: PolygonEdge, m: int) -> (Seq<Corner>, PolygonEdge, int) {
    if m + 1 < row_of(t, e).len() {
        (seq![], e, m + 1)
    } else {
        let row = t[e.poly as int]@;
        let (vs, j) = sweep_forward(row, second, e.poly, e.edge as int, row.len() as nat);
        (vs, PolygonEdge { poly: e.poly, edge: j as usize }, 0)
    }
}

/// From crossing `m` on edge `e`, the previous crossing along the contour, and the
/// vertices passed on the way back.
pub open spec fn behind(t: Seq<Vec<Vec<Entry>>>, second: bool, e: PolygonEdge, m: int) -> (Seq<Corner>, PolygonEdge, int) {
    if m > 0 {
        (seq![], e, m - 1)
    } else {
        let row = t[e.poly as int]@;
        let (vs, j) = sweep_backward(row, second, e.poly, e.edge as int, row.len() as nat);
        let f = PolygonEdge { poly: e.poly, edge: j as usize };
        (vs, f, row_of(t, f).len() - 1)
    }
}

/// Which entry of `entries` sits at position `k`.
pub open spec fn locate(entries: Seq<Entry>, k: u64) -> int {
    choose|m: int| 0 <= m < entries.len() && entries[m].key.0 == k
}

/// One round of the walk that traces the difference, from crossing `m` on edge `e` of the
/// first polygon: over to the second polygon, along it (forwards where it enters the
/// first, backwards where it leaves) to its next crossing, back to the first polygon, and
/// along it (forwards where it leaves the second, backwards where it enters) to the next
/// crossing. The corners met, and where the round ends.
pub open spec fn step(ta: Seq<Vec<Vec<Entry>>>, tb: Seq<Vec<Vec<Entry>>>, e: PolygonEdge, m: int) -> (Seq<Corner>, PolygonEdge, int) {
    let (vs1, ea, ma) = across(ta, tb, e, m);
    let (vs2, ea2, ma2) = if !row_of(ta, ea)[ma].entering {
        ahead(ta, false, ea, ma)
    } else {
        behind(ta, false, ea, ma)
    };
    (
        vs1 + seq![Corner::Crossing(row_of(ta, ea)[ma].crossing)] + vs2 + seq![
            Corner::Crossing(row_of(ta, ea2)[ma2].crossing),
        ],
        ea2,
        ma2,
    )
}

/// The first half of a round: from crossing `m` on edge `e` of the first polygon over to
/// the second, along it to its next crossing, and back to the first polygon. The vertices
/// passed, and the crossing of the first polygon where it comes back.
pub open spec fn across(ta: Seq<Vec<Vec<Entry>>>, tb: Seq<Vec<Vec<Entry>>>, e: PolygonEdge, m: int) -> (Seq<Corner>, PolygonEdge, int) {
    let en = row_of(ta, e)[m];
    let eb = en.other;
    let mb = locate(row_of(tb, eb), en.other_key.0);
    let (vs1, eb2, mb2) = if row_of(tb, eb)[mb].entering {
        ahead(tb, true, eb, mb)
    } else {
        behind(tb, true, eb, mb)
    };
    let back = row_of(tb, eb2)[mb2];
    let ea = back.other;
    (vs1, ea, locate(row_of(ta, ea), back.other_key.0))
}

/// `c` rounds of the walk from crossing `m` on edge `e`: the corners met, and where it ends.
pub open spec fn trace(ta: Seq<Vec<Vec<Entry>>>, tb: Seq<Vec<Vec<Entry>>>, e: PolygonEdge, m: int, c: nat) -> (Seq<Corner>, PolygonEdge, int)
    decreases c,
{
    if c == 0 {
        (seq![], e, m)
    } else {
        let (p, e1, m1) = trace(ta, tb, e, m, (c - 1) as nat);
        let (q, e2, m2) = step(ta, tb, e1, m1);
        (p + q, e2, m2)
    }
}

/// After `c` rounds, the walk from crossing `m` on edge `e` is back where it started.
pub open spec fn back(ta: Seq<Vec<Vec<Entry>>>, tb: Seq<Vec<Vec<Entry>>>, e: PolygonEdge, m: int, c: nat) -> bool {
    trace(ta, tb, e, m, c).1 == e && trace(ta, tb, e, m, c).2 == m
}

/// How many rounds the walk from crossing `m` on edge `e`, having made `c`, makes in all:
/// it stops on first coming back, or after `limit` rounds.
pub open spec fn rounds_taken(ta: Seq<Vec<Vec<Entry>>>, tb: Seq<Vec<Vec<Entry>>>, e: PolygonEdge, m: int, c: nat, limit: nat) -> nat
    decreases limit - c,
{
    if c >= limit {
        c
    } else if back(ta, tb, e, m, c + 1) {
        c + 1
    } else {
        rounds_taken(ta, tb, e, m, c + 1, limit)
    }
}

/// The crossings of the first polygon that the first `c` rounds of the walk from crossing
/// `m` on edge `e` consume: where each round starts, and where it comes back to the first
/// polygon halfway.
pub open spec fn consumed(ta: Seq<Vec<Vec<Entry>>>, tb: Seq<Vec<Vec<Entry>>>, e: PolygonEdge, m: int, c: nat) -> Set<(PolygonEdge, int)>
    decreases c,
{
    if c == 0 {
        Set::empty()
    } else {
        let (_, e1, m1) = trace(ta, tb, e, m, (c - 1) as nat);
        let (_, e2, m2) = across(ta, tb, e1, m1);
        consumed(ta, tb, e, m, (c - 1) as nat).insert((e1, m1)).insert((e2, m2))
    }
}

/// The contour of the walk from crossing `m` on edge `e`, if it comes back within `limit`
/// rounds.
pub open spec fn closed_walk(ta: Seq<Vec<Vec<Entry>>>, tb: Seq<Vec<Vec<Entry>>>, e: PolygonEdge, m: int, limit: nat) -> Option<Seq<Corner>> {
    let c = rounds_taken(ta, tb, e, m, 0, limit);
    if c >= 1 && back(ta, tb, e, m, c) {
        Some(trace(ta, tb, e, m, c).0)
    } else {
        None
    }
}

/// Crossing `k` of the list `ps` as a pair.
pub open spec fn pair(ps: Seq<(PolygonEdge, usize)>, k: int) -> (PolygonEdge, int) {
    (ps[k].0, ps[k].1 as int)
}

/// The contours traced from the crossings of `ps` from the `k`-th on, with `seen` already
/// consumed: each crossing not yet consumed starts a walk of at most `ps.len()` rounds,
/// which consumes what it meets and yields its contour if it comes back.
pub open spec fn walks_from(ta: Seq<Vec<Vec<Entry>>>, tb: Seq<Vec<Vec<Entry>>>, ps: Seq<(PolygonEdge, usize)>, k: int, seen: Set<(PolygonEdge, int)>) -> Seq<Seq<Corner>>
    decreases ps.len() - k,
{
    if k < 0 || k >= ps.len() {
        seq![]
    } else {
        let (e, m) = pair(ps, k);
        if seen.contains((e, m)) {
            walks_from(ta, tb, ps, k + 1, seen)
        } else {
            let limit = ps.len() as nat;
            let c = rounds_taken(ta, tb, e, m, 0, limit);
            let rest = walks_from(ta, tb, ps, k + 1, seen.insert((e, m)).union(consumed(ta, tb, e, m, c)));
            match closed_walk(ta, tb, e, m, limit) {
                Some(w) => seq![w] + rest,
                None => rest,
            }
        }
    }
}

/// Scan order of crossings: by contour, edge, then position along the edge.
pub open spec fn pos_before(a: (PolygonEdge, usize), b: (PolygonEdge, usize)) -> bool {
    ||| a.0.poly < b.0.poly
    ||| a.0.poly == b.0.poly && a.0.edge < b.0.edge
    ||| a.0.poly == b.0.poly && a.0.edge == b.0.edge && a.1 < b.1
}

/// `ps` lists every crossing recorded in `t`, once each, in scan order.
pub open spec fn scan_order(t: Seq<Vec<Vec<Entry>>>, sizes: Seq<usize>, ps: Seq<(PolygonEdge, usize)>) -> bool {
    &&& forall|k: int| 0 <= k < ps.len() ==> is_pos(t, sizes, (#[trigger] ps[k]).0, ps[k].1 as int)
    &&& forall|a: int, b: int| 0 <= a < b < ps.len() ==> pos_before(#[trigger] ps[a], #[trigger] ps[b])
    &&& forall|e: PolygonEdge, m: int| #[trigger] is_pos(t, sizes, e, m) ==> exists|k: int| 0 <= k < ps.len() && #[trigger] pair(ps, k) == (e, m)
}

/// Every row of `t` has `sizes` edges.
pub open spec fn shaped(t: Seq<Vec<Vec<Entry>>>, sizes: Seq<usize>) -> bool {
    &&& t.len() == sizes.len()
    &&& forall|i: int| 0 <= i < t.len() ==> (#[trigger] t[i])@.len() == sizes[i]
}

/// Crossing `m` on edge `e` is recorded in `t`.
pub open spec fn is_pos(t: Seq<Vec<Vec<Entry>>>, sizes: Seq<usize>, e: PolygonEdge, m: int) -> bool {
    e.within(sizes) && 0 <= m < row_of(t, e).len()
}

/// The next crossing along the contour from crossing `m` on edge `e`.
fn go_ahead(t: &Vec<Vec<Vec<Entry>>>, sizes: &Vec<usize>, second: bool, e: PolygonEdge, m: usize) -> (r: (Vec<Corner>, PolygonEdge, usize))
    requires
        shaped(t@, sizes@),
        is_pos(t@, sizes@, e, m as int),
    ensures
        (r.0@, r.1, r.2 as int) == ahead(t@, second, e, m as int),
        is_pos(t@, sizes@, r.1, r.2 as int),
{
    let row = &t[e.poly];
    proof {
        assert(row@ == t@[e.poly as int]@);
        assert(m < row@[e.edge as int]@.len());
    }
    if m < row[e.edge].len() - 1 {
        return (Vec::new(), e, m + 1);
    }
    let n = row.len();
    let ghost full = sweep_forward(row@, second, e.poly, e.edge as int, n as nat);
    let mut vs: Vec<Corner> = Vec::new();
    let mut j = e.edge;
    let ghost mut d: int = 0;
    loop
        invariant
            e.poly < t@.len(),
            shaped(t@, sizes@),
            e.within(sizes@),
            m + 1 >= row@[e.edge as int]@.len(),
            row@ == t@[e.poly as int]@,
            n == row@.len(),
            0 <= e.edge < n,
            row@[e.edge as int]@.len() > 0,
            0 <= d < n,
            j == (if e.edge + d < n { e.edge + d } else { e.edge + d - n }),
            full == sweep_forward(row@, second, e.poly, e.edge as int, n as nat),
            full.0 == vs@ + sweep_forward(row@, second, e.poly, j as int, (n - d) as nat).0,
            full.1 == sweep_forward(row@, second, e.poly, j as int, (n - d) as nat).1,
        decreases n - d,
    {
        let k = if j + 1 >= n { 0 } else { j + 1 };
        let v = Corner::Vertex { second, poly: e.poly, vertex: k };
        vs.push(v);
        if row[k].len() > 0 {
            proof {
                assert(full.0 =~= vs@);
                assert(full.1 == k);
            }
            return (vs, PolygonEdge { poly: e.poly, edge: k }, 0);
        }
        proof {
            assert(vs@ + sweep_forward(row@, second, e.poly, k as int, (n - d - 1) as nat).0 =~= full.0);
            d = d + 1;
        }
        j = k;
    }
}

/// The previous crossing along the contour from crossing `m` on edge `e`.
fn go_behind(t: &Vec<Vec<Vec<Entry>>>, sizes: &Vec<usize>, second: bool, e: PolygonEdge, m: usize) -> (r: (Vec<Corner>, PolygonEdge, usize))
    requires
        shaped(t@, sizes@),
        is_pos(t@, sizes@, e, m as int),
    ensures
        (r.0@, r.1, r.2 as int) == behind(t@, second, e, m as int),
        is_pos(t@, sizes@, r.1, r.2 as int),
{
    let row = &t[e.poly];
    proof {
        assert(row@ == t@[e.poly as int]@);
        assert(m < row@[e.edge as int]@.len());
    }
    if m > 0 {
        return (Vec::new(), e, m - 1);
    }
    let n = row.len();
    let ghost full = sweep_backward(row@, second, e.poly, e.edge as int, n as nat);
    let mut vs: Vec<Corner> = Vec::new();
    let mut j = e.edge;
    let ghost mut d: int = 0;
    loop
        invariant
            e.poly < t@.len(),
            shaped(t@, sizes@),
            e.within(sizes@),
            m == 0,
            row@ == t@[e.poly as int]@,
            n == row@.len(),
            0 <= e.edge < n,
            row@[e.edge as int]@.len() > 0,
            0 <= d < n,
            j == (if e.edge - d >= 0 { e.edge - d } else { e.edge - d + n }),
            full == sweep_backward(row@, second, e.poly, e.edge as int, n as nat),
            full.0 == vs@ + sweep_backward(row@, second, e.poly, j as int, (n - d) as nat).0,
            full.1 == sweep_backward(row@, second, e.poly, j as int, (n - d) as nat).1,
        decreases n - d,
    {
        let k = if j == 0 { n - 1 } else { j - 1 };
        let v = Corner::Vertex { second, poly: e.poly, vertex: j };
        vs.push(v);
        if row[k].len() > 0 {
            proof {
                assert(full.0 =~= vs@);
                assert(full.1 == k);
            }
            return (vs, PolygonEdge { poly: e.poly, edge: k }, row[k].len() - 1);
        }
        proof {
            assert(vs@ + sweep_backward(row@, second, e.poly, k as int, (n - d - 1) as nat).0 =~= full.0);
            d = d + 1;
        }
        j = k;
    }
}

/// Within each edge, positions strictly increase.
pub open spec fn sorted_rows(t: Seq<Vec<Vec<Entry>>>, sizes: Seq<usize>) -> bool {
    forall|e: PolygonEdge, m: int, l: int|
        e.within(sizes) && 0 <= m < l < row_of(t, e).len() ==> (#[trigger] row_of(t, e)[m]).key.0 < (
        #[trigger] row_of(t, e)[l]).key.0
}

/// Every crossing recorded in `t` is recorded in `u` too, at the other edge and position
/// that it names.
pub open spec fn points_into(t: Seq<Vec<Vec<Entry>>>, sizes: Seq<usize>, u: Seq<Vec<Vec<Entry>>>, usizes: Seq<usize>) -> bool {
    forall|e: PolygonEdge, m: int|
        #[trigger] is_pos(t, sizes, e, m) ==> {
            let en = row_of(t, e)[m];
            &&& en.other.within(usizes)
            &&& exists|l: int| 0 <= l < row_of(u, en.other).len() && (#[trigger] row_of(u, en.other)[l]).key.0 == en.other_key.0
        }
}

/// Two crossing tables that the walk can move between.
pub open spec fn linked(ta: Seq<Vec<Vec<Entry>>>, sa: Seq<usize>, tb: Seq<Vec<Vec<Entry>>>, sb: Seq<usize>) -> bool {
    &&& shaped(ta, sa)
    &&& shaped(tb, sb)
    &&& sorted_rows(ta, sa)
    &&& sorted_rows(tb, sb)
    &&& points_into(ta, sa, tb, sb)
    &&& points_into(tb, sb, ta, sa)
}

/// Every crossing lies on edges that exist.
pub open spec fn crossings_fit(cs: Seq<Crossing>, sa: Seq<usize>, sb: Seq<usize>) -> bool {
    forall|i: int| 0 <= i < cs.len() ==> (#[trigger] cs[i]).first.within(sa) && cs[i].second.within(sb)
}

proof fn lemma_points_into(cs: Seq<Crossing>, second: bool, sizes: Seq<usize>, seeds: Seq<bool>, t: Seq<Vec<Vec<Entry>>>, usizes: Seq<usize>, useeds: Seq<bool>, u: Seq<Vec<Vec<Entry>>>)
    requires
        records_polygon(cs, second, sizes, seeds, t),
        records_polygon(cs, !second, usizes, useeds, u),
        forall|i: int| 0 <= i < cs.len() ==> (#[trigger] cs[i]).edge_in(!second).within(usizes),
    ensures
        points_into(t, sizes, u, usizes),
        sorted_rows(t, sizes),
{
    assert forall|e: PolygonEdge, m: int| #[trigger] is_pos(t, sizes, e, m) implies {
        let en = row_of(t, e)[m];
        &&& en.other.within(usizes)
        &&& exists|l: int| 0 <= l < row_of(u, en.other).len() && (#[trigger] row_of(u, en.other)[l]).key.0 == en.other_key.0
    } by {
        let ee = PolygonEdge { poly: e.poly as usize, edge: e.edge as usize };
        assert(ee == e);
        assert(records_edge(cs, second, e, t[e.poly as int]@[e.edge as int]@));
        let en = row_of(t, e)[m];
        lemma_latest_bounds(cs, second, e, en.key.0);
        let c = en.crossing as int;
        let o = cs[c].edge_in(!second);
        assert(o.within(usizes));
        assert(PolygonEdge { poly: o.poly as usize, edge: o.edge as usize } == o);
        assert(records_edge(cs, !second, o, u[o.poly as int]@[o.edge as int]@));
        assert(cs[c].edge_in(!second) == o);
        assert(en.other == o);
        assert(en.other_key.0 == cs[c].key_in(!second));
        let l = choose|l: int| 0 <= l < u[o.poly as int]@[o.edge as int]@.len() && (#[trigger] u[o.poly as int]@[o.edge as int]@[l]).key.0 == cs[c].key_in(!second);
        assert(row_of(u, en.other)[l].key.0 == en.other_key.0);
    }
    assert forall|e: PolygonEdge, m: int, l: int|
        e.within(sizes) && 0 <= m < l < row_of(t, e).len() implies (#[trigger] row_of(t, e)[m]).key.0 < (
        #[trigger] row_of(t, e)[l]).key.0 by {
        assert(PolygonEdge { poly: e.poly as usize, edge: e.edge as usize } == e);
        assert(records_edge(cs, second, e, t[e.poly as int]@[e.edge as int]@));
    }
}

/// The entry at position `k` of a row that holds one.
fn find_key(entries: &Vec<Entry>, k: u64) -> (m: usize)
    requires
        forall|a: int, b: int| 0 <= a < b < entries@.len() ==> (#[trigger] entries@[a]).key.0 < (#[trigger] entries@[b]).key.0,
        exists|l: int| 0 <= l < entries@.len() && (#[trigger] entries@[l]).key.0 == k,
    ensures
        m < entries@.len(),
        m as int == locate(entries@, k),
{
    let mut m: usize = 0;
    while m < entries.len()
        invariant
            m <= entries@.len(),
            forall|l: int| 0 <= l < m ==> (#[trigger] entries@[l]).key.0 != k,
            forall|a: int, b: int| 0 <= a < b < entries@.len() ==> (#[trigger] entries@[a]).key.0 < (#[trigger] entries@[b]).key.0,
            exists|l: int| 0 <= l < entries@.len() && (#[trigger] entries@[l]).key.0 == k,
        decreases entries.len() - m,
    {
        if entries[m].key.0 == k {
            proof {
                let l = locate(entries@, k);
                if l < m {
                    assert(entries@[l].key.0 < entries@[m as int].key.0);
                } else if l > m {
                    assert(entries@[m as int].key.0 < entries@[l].key.0);
                }
            }
            return m;
        }
        m = m + 1;
    }
    m
}

/// One round of the walk from crossing `m` on edge `e` of the first polygon; also the
/// crossing of the first polygon where the round came back to it.
fn walk_step(ta: &Vec<Vec<Vec<Entry>>>, sa: &Vec<usize>, tb: &Vec<Vec<Vec<Entry>>>, sb: &Vec<usize>, e: PolygonEdge, m: usize) -> (r: (Vec<Corner>, PolygonEdge, usize, PolygonEdge, usize))
    requires
        linked(ta@, sa@, tb@, sb@),
        is_pos(ta@, sa@, e, m as int),
    ensures
        (r.0@, r.1, r.2 as int) == step(ta@, tb@, e, m as int),
        (r.3, r.4 as int) == (across(ta@, tb@, e, m as int).1, across(ta@, tb@, e, m as int).2),
        is_pos(ta@, sa@, r.1, r.2 as int),
        is_pos(ta@, sa@, r.3, r.4 as int),
{
    proof {
        assert(is_pos(ta@, sa@, e, m as int));
    }
    let en = ta[e.poly][e.edge][m];
    let eb = en.other;
    let mb = find_key(&tb[eb.poly][eb.edge], en.other_key.0);
    let (vs1, eb2, mb2) = if tb[eb.poly][eb.edge][mb].entering {
        go_ahead(tb, sb, true, eb, mb)
    } else {
        go_behind(tb, sb, true, eb, mb)
    };
    proof {
        assert(is_pos(tb@, sb@, eb2, mb2 as int));
    }
    let back = tb[eb2.poly][eb2.edge][mb2];
    let ea = back.other;
    let ma = find_key(&ta[ea.poly][ea.edge], back.other_key.0);
    let (vs2, ea2, ma2) = if !ta[ea.poly][ea.edge][ma].entering {
        go_ahead(ta, sa, false, ea, ma)
    } else {
        go_behind(ta, sa, false, ea, ma)
    };
    let mut corners = vs1;
    corners.push(Corner::Crossing(ta[ea.poly][ea.edge][ma].crossing));
    let mut tail = vs2;
    corners.append(&mut tail);
    corners.push(Corner::Crossing(ta[ea2.poly][ea2.edge][ma2].crossing));
    proof {
        let (svs1, seb2, smb2) = if row_of(tb@, eb)[mb as int].entering {
            ahead(tb@, true, eb, mb as int)
        } else {
            behind(tb@, true, eb, mb as int)
        };
        assert(svs1 == vs1@ && seb2 == eb2 && smb2 == mb2);
        assert(corners@ =~= step(ta@, tb@, e, m as int).0);
    }
    (corners, ea2, ma2, ea, ma)
}

/// Every crossing recorded in `t`, by contour, edge and position.
fn crossing_positions(t: &Vec<Vec<Vec<Entry>>>, sizes: &Vec<usize>) -> (r: Vec<(PolygonEdge, usize)>)
    requires
        shaped(t@, sizes@),
    ensures
        scan_order(t@, sizes@, r@),
{
    let mut r: Vec<(PolygonEdge, usize)> = Vec::new();
    let mut i: usize = 0;
    while i < t.len()
        invariant
            shaped(t@, sizes@),
            i <= t@.len(),
            forall|k: int| 0 <= k < r@.len() ==> is_pos(t@, sizes@, (#[trigger] r@[k]).0, r@[k].1 as int),
            forall|k: int| 0 <= k < r@.len() ==> (#[trigger] r@[k]).0.poly < i,
            forall|a: int, b: int| 0 <= a < b < r@.len() ==> pos_before(#[trigger] r@[a], #[trigger] r@[b]),
            forall|e: PolygonEdge, m: int| #[trigger] is_pos(t@, sizes@, e, m) && e.poly < i ==> exists|k: int| 0 <= k < r@.len() && #[trigger] pair(r@, k) == (e, m),
        decreases t@.len() - i,
    {
        let mut j: usize = 0;
        while j < t[i].len()
            invariant
                shaped(t@, sizes@),
                i < t@.len(),
                j <= t@[i as int]@.len(),
                forall|k: int| 0 <= k < r@.len() ==> is_pos(t@, sizes@, (#[trigger] r@[k]).0, r@[k].1 as int),
                forall|k: int| 0 <= k < r@.len() ==> (#[trigger] r@[k]).0.poly < i || (r@[k].0.poly == i && r@[k].0.edge < j),
                forall|a: int, b: int| 0 <= a < b < r@.len() ==> pos_before(#[trigger] r@[a], #[trigger] r@[b]),
                forall|e: PolygonEdge, m: int| #[trigger] is_pos(t@, sizes@, e, m) && (e.poly < i || (e.poly == i && e.edge < j)) ==> exists|k: int| 0 <= k < r@.len() && #[trigger] pair(r@, k) == (e, m),
            decreases t@[i as int]@.len() - j,
        {
            let mut m: usize = 0;
            while m < t[i][j].len()
                invariant
                    shaped(t@, sizes@),
                    i < t@.len(),
                    j < t@[i as int]@.len(),
                    m <= t@[i as int]@[j as int]@.len(),
                    forall|k: int| 0 <= k < r@.len() ==> is_pos(t@, sizes@, (#[trigger] r@[k]).0, r@[k].1 as int),
                    forall|k: int| 0 <= k < r@.len() ==> (#[trigger] r@[k]).0.poly < i || (r@[k].0.poly == i && r@[k].0.edge < j) || (r@[k].0.poly == i && r@[k].0.edge == j && r@[k].1 < m),
                    forall|a: int, b: int| 0 <= a < b < r@.len() ==> pos_before(#[trigger] r@[a], #[trigger] r@[b]),
                    forall|e: PolygonEdge, mm: int| #[trigger] is_pos(t@, sizes@, e, mm) && (e.poly < i || (e.poly == i && e.edge < j) || (e.poly == i && e.edge == j && mm < m)) ==> exists|k: int| 0 <= k < r@.len() && #[trigger] pair(r@, k) == (e, mm),
                decreases t@[i as int]@[j as int]@.len() - m,
            {
                let ghost prev = r@;
                let p = (PolygonEdge::new(i, j), m);
                r.push(p);
                proof {
                    assert(is_pos(t@, sizes@, p.0, m as int));
                    assert forall|e: PolygonEdge, mm: int| #[trigger] is_pos(t@, sizes@, e, mm) && (e.poly < i || (e.poly == i && e.edge < j) || (e.poly == i && e.edge == j && mm < m + 1)) implies exists|k: int| 0 <= k < r@.len() && #[trigger] pair(r@, k) == (e, mm) by {
                        if e.poly < i || (e.poly == i && e.edge < j) || (e.poly == i && e.edge == j && mm < m) {
                            let k = choose|k: int| 0 <= k < prev.len() && #[trigger] pair(prev, k) == (e, mm);
                            assert(pair(r@, k) == pair(prev, k));
                        } else {
                            assert(pair(r@, prev.len() as int) == (e, mm));
                        }
                    }
                }
                m = m + 1;
            }
            j = j + 1;
        }
        proof {
            assert forall|e: PolygonEdge, mm: int| #[trigger] is_pos(t@, sizes@, e, mm) && e.poly < i + 1 implies exists|k: int| 0 <= k < r@.len() && #[trigger] pair(r@, k) == (e, mm) by {
                if e.poly == i {
                    assert(e.edge < t@[i as int]@.len());
                }
            }
        }
        i = i + 1;
    }
    r
}

/// Mark crossing `m` on edge `e` as consumed.
fn mark(positions: &Vec<(PolygonEdge, usize)>, visited: &mut Vec<bool>, e: PolygonEdge, m: usize)
    requires
        old(visited)@.len() == positions@.len(),
        forall|a: int, b: int| 0 <= a < b < positions@.len() ==> pos_before(#[trigger] positions@[a], #[trigger] positions@[b]),
    ensures
        final(visited)@.len() == old(visited)@.len(),
        forall|k: int| 0 <= k < positions@.len() ==> #[trigger] final(visited)@[k] == (old(visited)@[k] || pair(positions@, k) == (e, m as int)),
{
    let ghost start = visited@;
    let mut found = false;
    let mut k: usize = 0;
    while k < positions.len()
        invariant
            visited@.len() == positions@.len(),
            start.len() == positions@.len(),
            k <= positions@.len(),
            forall|a: int, b: int| 0 <= a < b < positions@.len() ==> pos_before(#[trigger] positions@[a], #[trigger] positions@[b]),
            !found ==> visited@ == start,
            !found ==> forall|q: int| 0 <= q < k ==> pair(positions@, q) != (e, m as int),
            found ==> forall|q: int| 0 <= q < positions@.len() ==> #[trigger] visited@[q] == (start[q] || pair(positions@, q) == (e, m as int)),
        decreases positions@.len() - k,
    {
        if !found && positions[k].0 == e && positions[k].1 == m {
            visited.set(k, true);
            proof {
                assert forall|q: int| 0 <= q < positions@.len() implies #[trigger] visited@[q] == (start[q] || pair(positions@, q) == (e, m as int)) by {
                    if q > k {
                        assert(pos_before(positions@[k as int], positions@[q]));
                    }
                }
            }
            found = true;
        }
        k = k + 1;
    }
}

/// Walk from crossing `m` on edge `e` of the first polygon, for at most `rounds` rounds,
/// marking what it consumes: the contour traced, if the walk comes back where it started.
fn walk(
    ta: &Vec<Vec<Vec<Entry>>>,
    sa: &Vec<usize>,
    tb: &Vec<Vec<Vec<Entry>>>,
    sb: &Vec<usize>,
    e: PolygonEdge,
    m: usize,
    rounds: usize,
    positions: &Vec<(PolygonEdge, usize)>,
    visited: &mut Vec<bool>,
) -> (r: Option<Vec<Corner>>)
    requires
        linked(ta@, sa@, tb@, sb@),
        is_pos(ta@, sa@, e, m as int),
        old(visited)@.len() == positions@.len(),
        forall|a: int, b: int| 0 <= a < b < positions@.len() ==> pos_before(#[trigger] positions@[a], #[trigger] positions@[b]),
    ensures
        final(visited)@.len() == old(visited)@.len(),
        forall|k: int| 0 <= k < positions@.len() ==> #[trigger] final(visited)@[k] == (old(visited)@[k]
            || consumed(ta@, tb@, e, m as int, rounds_taken(ta@, tb@, e, m as int, 0, rounds as nat)).contains(pair(positions@, k))),
        closed_walk(ta@, tb@, e, m as int, rounds as nat) == match r {
            Some(contour) => Some(contour@),
            None => None,
        },
{
    let ghost start = visited@;
    let mut contour: Vec<Corner> = Vec::new();
    let mut ce = e;
    let mut cm = m;
    let mut c: usize = 0;
    let mut closed = false;
    proof {
        assert(contour@ =~= trace(ta@, tb@, e, m as int, 0).0);
    }
    while c < rounds && !closed
        invariant
            linked(ta@, sa@, tb@, sb@),
            visited@.len() == positions@.len(),
            start.len() == positions@.len(),
            forall|a: int, b: int| 0 <= a < b < positions@.len() ==> pos_before(#[trigger] positions@[a], #[trigger] positions@[b]),
            c <= rounds,
            is_pos(ta@, sa@, ce, cm as int),
            (contour@, ce, cm as int) == trace(ta@, tb@, e, m as int, c as nat),
            forall|k: int| 0 <= k < positions@.len() ==> #[trigger] visited@[k] == (start[k] || consumed(ta@, tb@, e, m as int, c as nat).contains(pair(positions@, k))),
            closed ==> c >= 1 && back(ta@, tb@, e, m as int, c as nat) && rounds_taken(ta@, tb@, e, m as int, 0, rounds as nat) == c,
            !closed ==> rounds_taken(ta@, tb@, e, m as int, 0, rounds as nat) == rounds_taken(ta@, tb@, e, m as int, c as nat, rounds as nat),
            !closed ==> !(ce == e && cm == m) || c == 0,
        decreases rounds - c,
    {
        let ghost before = visited@;
        mark(positions, visited, ce, cm);
        let (corners, ne, nm, xe, xm) = walk_step(ta, sa, tb, sb, ce, cm);
        mark(positions, visited, xe, xm);
        proof {
            let next = consumed(ta@, tb@, e, m as int, (c + 1) as nat);
            assert(next == consumed(ta@, tb@, e, m as int, c as nat).insert((ce, cm as int)).insert((xe, xm as int)));
            assert forall|k: int| 0 <= k < positions@.len() implies #[trigger] visited@[k] == (start[k] || next.contains(pair(positions@, k))) by {}
        }
        let mut more = corners;
        contour.append(&mut more);
        c = c + 1;
        ce = ne;
        cm = nm;
        proof {
            assert(contour@ =~= trace(ta@, tb@, e, m as int, c as nat).0);
        }
        if ce == e && cm == m {
            closed = true;
        }
    }
    if closed {
        proof {
            assert(trace(ta@, tb@, e, m as int, c as nat).0 == contour@);
            assert(rounds_taken(ta@, tb@, e, m as int, 0, rounds as nat) == c);
            assert(back(ta@, tb@, e, m as int, c as nat));
            assert(closed_walk(ta@, tb@, e, m as int, rounds as nat) == Some(contour@));
        }
        Some(contour)
    } else {
        None
    }
}

/// The corners of contour `poly`, with `n` vertices, of one input polygon.
pub open spec fn whole_contour(second: bool, poly: usize, n: usize) -> Seq<Corner> {
    Seq::new(n as nat, |v: int| Corner::Vertex { second, poly, vertex: v as usize })
}

/// The contours of a polygon (the second if `second`), whole, whose first vertex has
/// containment `inside` in the other polygon, in order.
pub open spec fn whole_contours(sizes: Seq<usize>, seeds: Seq<bool>, second: bool, inside: bool) -> Seq<Seq<Corner>>
    decreases sizes.len(),
{
    if sizes.len() == 0 {
        seq![]
    } else {
        let i = sizes.len() - 1;
        let rest = whole_contours(sizes.drop_last(), seeds.drop_last(), second, inside);
        if seeds[i] == inside {
            rest.push(whole_contour(second, i as usize, sizes[i]))
        } else {
            rest
        }
    }
}

/// The difference of two polygons whose boundaries do not cross: the contours of the
/// first that lie outside the second, then the contours of the second that lie inside the
/// first, as holes.
pub open spec fn apart_difference(sa: Seq<usize>, seeds_a: Seq<bool>, sb: Seq<usize>, seeds_b: Seq<bool>) -> Seq<Seq<Corner>> {
    whole_contours(sa, seeds_a, false, false) + whole_contours(sb, seeds_b, true, true)
}

fn push_whole_contours(out: &mut Vec<Vec<Corner>>, sizes: &Vec<usize>, seeds: &Vec<bool>, second: bool, inside: bool)
    requires
        seeds@.len() == sizes@.len(),
    ensures
        final(out)@.len() == old(out)@.len() + whole_contours(sizes@, seeds@, second, inside).len(),
        forall|k: int| 0 <= k < old(out)@.len() ==> #[trigger] final(out)@[k] == old(out)@[k],
        forall|k: int| 0 <= k < whole_contours(sizes@, seeds@, second, inside).len() ==>
            (#[trigger] final(out)@[old(out)@.len() + k])@ == whole_contours(sizes@, seeds@, second, inside)[k],
{
    let ghost start = out@;
    let mut i: usize = 0;
    while i < sizes.len()
        invariant
            i <= sizes@.len(),
            seeds@.len() == sizes@.len(),
            out@.len() == start.len() + whole_contours(sizes@.take(i as int), seeds@.take(i as int), second, inside).len(),
            forall|k: int| 0 <= k < start.len() ==> #[trigger] out@[k] == start[k],
            forall|k: int| 0 <= k < whole_contours(sizes@.take(i as int), seeds@.take(i as int), second, inside).len() ==>
                (#[trigger] out@[start.len() + k])@ == whole_contours(sizes@.take(i as int), seeds@.take(i as int), second, inside)[k],
        decreases sizes@.len() - i,
    {
        proof {
            assert(sizes@.take(i as int + 1).drop_last() =~= sizes@.take(i as int));
            assert(seeds@.take(i as int + 1).drop_last() =~= seeds@.take(i as int));
        }
        if seeds[i] == inside {
            let n = sizes[i];
            let mut contour: Vec<Corner> = Vec::new();
            let mut v: usize = 0;
            while v < n
                invariant
                    v <= n,
                    contour@ =~= whole_contour(second, i, n).take(v as int),
                decreases n - v,
            {
                contour.push(Corner::Vertex { second, poly: i, vertex: v });
                v = v + 1;
            }
            proof {
                assert(contour@ =~= whole_contour(second, i, n));
            }
            out.push(contour);
        }
        i = i + 1;
    }
    proof {
        assert(sizes@.take(sizes@.len() as int) =~= sizes@);
        assert(seeds@.take(seeds@.len() as int) =~= seeds@);
    }
}

/// The contours of `first` minus `second`, as corners. The contours of the first polygon
/// have `first` vertices, those of the second `second`; `first_inside[i]` tells whether the
/// first vertex of contour `i` of the first polygon lies inside the second, and
/// `second_inside` the converse; `crossings` lists where the edges of the two meet.
///
/// Where nothing crosses, the result is `apart_difference`. Otherwise the crossings are
/// recorded edge by edge in two tables (determined by the crossings and the containment
/// flags: see `records_polygon`), and the contours are `walks_from` the crossings of the
/// first polygon in scan order: each crossing not yet consumed starts a walk that runs
/// until it first comes back, for at most as many rounds as there are crossings; a walk
/// that does not come back yields nothing.
pub fn difference(
    first: &Vec<usize>,
    second: &Vec<usize>,
    crossings: &Vec<Crossing>,
    first_inside: &Vec<bool>,
    second_inside: &Vec<bool>,
) -> (r: Vec<Vec<Corner>>)
    requires
        first_inside@.len() == first@.len(),
        second_inside@.len() == second@.len(),
        crossings_fit(crossings@, first@, second@),
    ensures
        crossings@.len() == 0 ==> r@.map_values(|c: Vec<Corner>| c@) == apart_difference(
            first@,
            first_inside@,
            second@,
            second_inside@,
        ),
        crossings@.len() > 0 ==> exists|ta: Seq<Vec<Vec<Entry>>>, tb: Seq<Vec<Vec<Entry>>>, ps: Seq<(PolygonEdge, usize)>|
            {
                &&& records_polygon(crossings@, false, first@, first_inside@, ta)
                &&& records_polygon(crossings@, true, second@, second_inside@, tb)
                &&& scan_order(ta, first@, ps)
                &&& r@.map_values(|c: Vec<Corner>| c@) == walks_from(ta, tb, ps, 0, Set::empty())
            },
{
    let mut out: Vec<Vec<Corner>> = Vec::new();
    if crossings.len() == 0 {
        push_whole_contours(&mut out, first, first_inside, false, false);
        let ghost mid = out@;
        push_whole_contours(&mut out, second, second_inside, true, true);
        proof {
            let wa = whole_contours(first@, first_inside@, false, false);
            let wb = whole_contours(second@, second_inside@, true, true);
            let mapped = out@.map_values(|c: Vec<Corner>| c@);
            assert forall|k: int| 0 <= k < out@.len() implies #[trigger] mapped[k] == (wa + wb)[k] by {
                assert(out@.len() == wa.len() + wb.len());
                if k < wa.len() {
                    assert(out@[k] == mid[k]);
                    assert(mid[0 + k]@ == wa[k]);
                } else {
                    let q = k - wa.len();
                    assert(mid.len() == wa.len());
                    assert(out@[mid.len() + q]@ == wb[q]);
                }
            }
            assert(mapped =~= apart_difference(first@, first_inside@, second@, second_inside@));
        }
        return out;
    }
    let ta = polygon_entries(crossings, false, first, first_inside);
    let tb = polygon_entries(crossings, true, second, second_inside);
    proof {
        lemma_points_into(crossings@, false, first@, first_inside@, ta@, second@, second_inside@, tb@);
        lemma_points_into(crossings@, true, second@, second_inside@, tb@, first@, first_inside@, ta@);
    }
    let positions = crossing_positions(&ta, first);
    let mut visited: Vec<bool> = Vec::new();
    while visited.len() < positions.len()
        invariant
            visited@.len() <= positions@.len(),
            forall|q: int| 0 <= q < visited@.len() ==> !(#[trigger] visited@[q]),
        decreases positions@.len() - visited@.len(),
    {
        visited.push(false);
    }
    let rounds = positions.len();
    let ghost all = walks_from(ta@, tb@, positions@, 0, Set::empty());
    let ghost mut seen: Set<(PolygonEdge, int)> = Set::empty();
    let mut k: usize = 0;
    proof {
        assert(out@.map_values(|c: Vec<Corner>| c@) + walks_from(ta@, tb@, positions@, 0, seen) =~= all);
    }
    while k < positions.len()
        invariant
            linked(ta@, first@, tb@, second@),
            records_polygon(crossings@, false, first@, first_inside@, ta@),
            records_polygon(crossings@, true, second@, second_inside@, tb@),
            scan_order(ta@, first@, positions@),
            rounds == positions@.len(),
            k <= positions@.len(),
            visited@.len() == positions@.len(),
            all == walks_from(ta@, tb@, positions@, 0, Set::empty()),
            forall|q: int| 0 <= q < positions@.len() ==> #[trigger] visited@[q] == seen.contains(pair(positions@, q)),
            out@.map_values(|c: Vec<Corner>| c@) + walks_from(ta@, tb@, positions@, k as int, seen) == all,
        decreases positions@.len() - k,
    {
        let ghost old_out = out@.map_values(|c: Vec<Corner>| c@);
        let ghost seen0 = seen;
        if !visited[k] {
            let (e, m) = positions[k];
            let ghost s0 = (e, m as int);
            let ghost c = rounds_taken(ta@, tb@, e, m as int, 0, rounds as nat);
            let ghost seen2 = seen.insert(s0).union(consumed(ta@, tb@, e, m as int, c));
            proof {
                assert(pair(positions@, k as int) == s0);
                assert(is_pos(ta@, first@, positions@[k as int].0, positions@[k as int].1 as int));
            }
            visited.set(k, true);
            let ghost mid_visited = visited@;
            let found = walk(&ta, first, &tb, second, e, m, rounds, &positions, &mut visited);
            proof {
                assert forall|q: int| 0 <= q < positions@.len() implies #[trigger] visited@[q] == seen2.contains(pair(positions@, q)) by {
                    assert(mid_visited[q] == (seen.contains(pair(positions@, q)) || pair(positions@, q) == s0));
                }
                seen = seen2;
            }
            match found {
                Some(contour) => {
                    let ghost w = contour@;
                    out.push(contour);
                    proof {
                        assert(out@.map_values(|c: Vec<Corner>| c@) =~= old_out.push(w));
                        assert(!seen0.contains(s0));
                        assert(walks_from(ta@, tb@, positions@, k as int, seen0) == seq![w] + walks_from(ta@, tb@, positions@, k as int + 1, seen2));
                        assert(old_out.push(w) + walks_from(ta@, tb@, positions@, k as int + 1, seen2) =~= old_out + (seq![w] + walks_from(ta@, tb@, positions@, k as int + 1, seen2)));
                    }
                },
                None => {
                    proof {
                        assert(!seen0.contains(s0));
                        assert(walks_from(ta@, tb@, positions@, k as int, seen0) == walks_from(ta@, tb@, positions@, k as int + 1, seen2));
                    }
                },
            }
        } else {
            proof {
                assert(seen.contains(pair(positions@, k as int)));
            }
        }
        k = k + 1;
    }
    proof {
        assert(walks_from(ta@, tb@, positions@, positions@.len() as int, seen) =~= Seq::<Seq<Corner>>::empty());
        assert(out@.map_values(|c: Vec<Corner>| c@) =~= all);
        assert(scan_order(ta@, first@, positions@));
    }
    out
}

/// Multiplier of the jitter generator's linear congruential step.
pub const JITTER_MUL: u64 = 6364136223846793005;

/// Increment of the jitter generator's linear congruential step.
pub const JITTER_INC: u64 = 1442695040888963407;

/// One step of the jitter generator: `state * JITTER_MUL + JITTER_INC`, modulo 2^64.
pub open spec fn jitter_step(state: u64) -> u64 {
    state.wrapping_mul(JITTER_MUL).wrapping_add(JITTER_INC)
}

/// A seeded source of pseudo-random numbers for the tiny perturbation applied to a clip
/// polygon before each difference, so that no two edges coincide exactly. The same seed
/// gives the same numbers, which keeps every difference reproducible.
pub struct Jitter {
    state: u64,
}

impl View for Jitter {
    type V = u64;

    closed spec fn view(&self) -> u64 {
        self.state
    }
}

impl Jitter {
    pub fn new(seed: u64) -> (r: Self)
        ensures
            r@ == seed,
    {
        Jitter { state: seed }
    }

    /// Advance the generator and return its new state.
    pub fn next(&mut self) -> (r: u64)
        ensures
            final(self)@ == jitter_step(old(self)@),
            r == final(self)@,
    {
        let s = self.state.wrapping_mul(JITTER_MUL).wrapping_add(JITTER_INC);
        self.state = s;
        s
    }
}

} // verus!
