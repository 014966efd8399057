use voxel4d::occlusion::occluders;
use voxel4d::region::Region;
use voxel4d::triangulate::fan;

#[test]
fn occluders_skip_self_and_ruled_out_pairs() {
    let overlap = vec![
        vec![true, true, false],
        vec![true, true, true],
        vec![false, false, true],
    ];
    assert_eq!(occluders(&overlap), vec![vec![1], vec![0, 2], vec![]]);
}

#[test]
fn occluders_of_nothing() {
    assert_eq!(occluders(&vec![]), Vec::<Vec<usize>>::new());
}

#[test]
fn region_add_boundary_appends() {
    let mut r = Region::from(vec![[1i64, 0, 0], [0, 1, 0]]);
    r.add_boundary([-1, 0, 1]);
    assert_eq!(r.into(), vec![[1, 0, 0], [0, 1, 0], [-1, 0, 1]]);
}

#[test]
fn region_transform_maps_each_boundary() {
    let r = Region::from(vec![[1i64, 0, 0], [0, 1, -2]]);
    let t = r.transform(|h: &[i64; 3]| [h[0] * 2, h[1] * 2, h[2] + h[0]]);
    assert_eq!(t.boundaries(), &vec![[2, 0, 1], [0, 2, -2]]);
}

#[test]
fn fan_of_a_pentagon() {
    assert_eq!(fan(5, false), vec![[0, 1, 2], [0, 2, 3], [0, 3, 4]]);
    assert_eq!(fan(5, true), vec![[4, 3, 2], [4, 2, 1], [4, 1, 0]]);
}

#[test]
fn fan_of_degenerate_contours() {
    assert!(fan(0, false).is_empty());
    assert!(fan(2, true).is_empty());
    assert_eq!(fan(3, false), vec![[0, 1, 2]]);
}
