use voxel4d::clip::{difference, Alpha, Corner, Crossing, Jitter, PolygonEdge, JITTER_INC, JITTER_MUL, ONE_BITS};

type Contours = Vec<Vec<[f64; 2]>>;

fn key(x: f64) -> Option<Alpha> {
    Alpha::from_bits(x.to_bits())
}

/// Where segment `e1` meets segment `e2`: the point and the keys of its parameters.
fn intersect(e1: [[f64; 2]; 2], e2: [[f64; 2]; 2]) -> Option<([f64; 2], [Alpha; 2])> {
    let alpha_2 = {
        let measure = |[x, y]: [f64; 2]| x * (e1[1][1] - e1[0][1]) + y * (e1[0][0] - e1[1][0]);
        let a = measure(e2[0]);
        let b = measure(e2[1]);
        let c = measure(e1[0]);
        (a - c) / (a - b)
    };
    let alpha_1 = {
        let measure = |[x, y]: [f64; 2]| x * (e2[1][1] - e2[0][1]) + y * (e2[0][0] - e2[1][0]);
        let a = measure(e1[0]);
        let b = measure(e1[1]);
        let c = measure(e2[0]);
        (a - c) / (a - b)
    };
    let coords = [
        e1[0][0] + alpha_1 * (e1[1][0] - e1[0][0]),
        e1[0][1] + alpha_1 * (e1[1][1] - e1[0][1]),
    ];
    Some((coords, [key(alpha_1)?, key(alpha_2)?]))
}

fn edges(p: &Contours) -> Vec<(PolygonEdge, [[f64; 2]; 2])> {
    let mut out = Vec::new();
    for (i, c) in p.iter().enumerate() {
        for j in 0..c.len() {
            out.push((PolygonEdge::new(i, j), [c[j], c[(j + 1) % c.len()]]));
        }
    }
    out
}

fn contains(p: &Contours, q: [f64; 2]) -> bool {
    let mut out = false;
    for (_, e) in edges(p) {
        if intersect(e, [q, [1e6, 1.618_033_988e6]]).is_some() {
            out = !out;
        }
    }
    out
}

/// The contours of `a` minus `b`, as coordinates.
fn subtract(a: &Contours, b: &Contours) -> Contours {
    let mut crossings = Vec::new();
    let mut points = Vec::new();
    for (ea, sa) in edges(a) {
        for (eb, sb) in edges(b) {
            if let Some((coords, [ka, kb])) = intersect(sa, sb) {
                crossings.push(Crossing { first: ea, first_alpha: ka, second: eb, second_alpha: kb });
                points.push(coords);
            }
        }
    }
    let sizes_a: Vec<usize> = a.iter().map(|c| c.len()).collect();
    let sizes_b: Vec<usize> = b.iter().map(|c| c.len()).collect();
    let inside_a: Vec<bool> = a.iter().map(|c| contains(b, c[0])).collect();
    let inside_b: Vec<bool> = b.iter().map(|c| contains(a, c[0])).collect();
    let corners = difference(&sizes_a, &sizes_b, &crossings, &inside_a, &inside_b);
    corners
        .into_iter()
        .map(|contour| {
            contour
                .into_iter()
                .map(|corner| match corner {
                    Corner::Vertex { second: false, poly, vertex } => a[poly][vertex],
                    Corner::Vertex { second: true, poly, vertex } => b[poly][vertex],
                    Corner::Crossing(i) => points[i],
                })
                .collect()
        })
        .collect()
}

#[test]
fn polygon_test() {
    let square = vec![vec![[-1., -1.], [-1., 1.], [1., 1.], [1., -1.]]];
    let bowtie = vec![vec![[-2., -3.], [2., 3.], [2., -3.], [-2., 3.]]];
    let big_square = vec![vec![[-4., -4.], [-4., 4.], [4., 4.], [4., -4.]]];

    assert_eq!(
        subtract(&square, &bowtie),
        vec![vec![
            [0.6666666666666667, -1.0],
            [-0.6666666666666667, -1.0],
            [0.6666666666666667, 1.0],
            [-0.6666666666666667, 1.0]
        ]]
    );

    assert_eq!(
        subtract(&bowtie, &square),
        vec![
            vec![
                [-1.0, -1.0],
                [-1.0, 1.0],
                [-0.6666666666666665, 1.0],
                [-2.0, 3.0],
                [-2.0, -3.0],
                [-0.6666666666666667, -1.0]
            ],
            vec![
                [1.0, 1.0],
                [1.0, -1.0],
                [0.6666666666666667, -1.0],
                [2.0, -3.0],
                [2.0, 3.0],
                [0.6666666666666665, 1.0]
            ]
        ]
    );

    assert_eq!(subtract(&square, &big_square), Contours::new());

    assert_eq!(
        subtract(&big_square, &square),
        vec![
            vec![[-4.0, -4.0], [-4.0, 4.0], [4.0, 4.0], [4.0, -4.0]],
            vec![[-1.0, -1.0], [-1.0, 1.0], [1.0, 1.0], [1.0, -1.0]]
        ]
    );
}

#[test]
fn apart_contours_by_containment() {
    // Nothing crosses: the first polygon's contour 0 lies outside the second and stays,
    // contour 1 lies inside and goes; the second's contour 0 lies inside the first and is
    // added as a hole, contour 1 does not.
    let r = difference(&vec![3, 4], &vec![5, 3], &vec![], &vec![false, true], &vec![true, false]);
    assert_eq!(
        r,
        vec![
            vec![
                Corner::Vertex { second: false, poly: 0, vertex: 0 },
                Corner::Vertex { second: false, poly: 0, vertex: 1 },
                Corner::Vertex { second: false, poly: 0, vertex: 2 },
            ],
            vec![
                Corner::Vertex { second: true, poly: 0, vertex: 0 },
                Corner::Vertex { second: true, poly: 0, vertex: 1 },
                Corner::Vertex { second: true, poly: 0, vertex: 2 },
                Corner::Vertex { second: true, poly: 0, vertex: 3 },
                Corner::Vertex { second: true, poly: 0, vertex: 4 },
            ],
        ]
    );
}

#[test]
fn empty_polygons_have_empty_difference() {
    assert_eq!(difference(&vec![], &vec![], &vec![], &vec![], &vec![]), Vec::<Vec<Corner>>::new());
}

#[test]
fn disjoint_squares_keep_the_first() {
    let a = vec![vec![[0., 0.], [0., 1.], [1., 1.], [1., 0.]]];
    let b = vec![vec![[3., 3.], [3., 4.], [4., 4.], [4., 3.]]];
    assert_eq!(subtract(&a, &b), a);
}

#[test]
fn corner_overlap_cuts_a_notch() {
    let a = vec![vec![[0., 0.], [0., 2.], [2., 2.], [2., 0.]]];
    let b = vec![vec![[1., 1.], [1., 3.], [3., 3.], [3., 1.]]];
    let r = subtract(&a, &b);
    assert_eq!(r.len(), 1);
    let c = &r[0];
    // The notched square has six corners: four of its own (one replaced) and two crossings.
    let mut pts: Vec<[f64; 2]> = c.clone();
    pts.sort_by(|p, q| p.partial_cmp(q).unwrap());
    pts.dedup();
    assert_eq!(pts, vec![[0., 0.], [0., 2.], [1., 1.], [1., 2.], [2., 0.], [2., 1.]]);
}

#[test]
fn alpha_keys_cover_the_unit_interval() {
    assert_eq!(Alpha::from_bits(0f64.to_bits()), Some(Alpha(0)));
    assert_eq!(Alpha::from_bits(1f64.to_bits()), Some(Alpha(ONE_BITS)));
    assert_eq!(Alpha::from_bits(0.5f64.to_bits()), Some(Alpha(0.5f64.to_bits())));
    assert_eq!(Alpha::from_bits(1.5f64.to_bits()), None);
    assert_eq!(Alpha::from_bits((-0.5f64).to_bits()), None);
    assert!(Alpha::from_bits(0.25f64.to_bits()).unwrap() < Alpha::from_bits(0.75f64.to_bits()).unwrap());
}

#[test]
fn polygon_edge_new_keeps_fields() {
    let e = PolygonEdge::new(2, 7);
    assert_eq!(e.poly, 2);
    assert_eq!(e.edge, 7);
    assert!(PolygonEdge::new(0, 9) < PolygonEdge::new(1, 0));
}

#[test]
fn jitter_is_a_seeded_lcg() {
    let mut j = Jitter::new(0);
    assert_eq!(j.next(), JITTER_INC);
    assert_eq!(j.next(), JITTER_INC.wrapping_mul(JITTER_MUL).wrapping_add(JITTER_INC));
    let mut a = Jitter::new(42);
    let mut b = Jitter::new(42);
    for _ in 0..10 {
        assert_eq!(a.next(), b.next());
    }
}
