use single_line::hilbert::{Hilbert, QuadOrientation};

#[test]
fn fresh_cell_has_no_leaves() {
    let h = Hilbert::new(4, 0, 0, 4, None);
    assert!(h.get_leaf(0, 0).is_none());
    assert!(h.get_leaf(3, 3).is_none());
}

#[test]
fn fresh_cell_traces_its_four_corners() {
    let h = Hilbert::new(4, 0, 0, 4, None);
    assert_eq!(h.rasterize(), vec![(2, 6), (2, 2), (6, 2), (6, 6)]);
    let c = Hilbert::new(4, 0, 0, 4, Some(QuadOrientation::C));
    assert_eq!(c.rasterize(), vec![(6, 2), (6, 6), (2, 6), (2, 2)]);
}

#[test]
fn subdivide_creates_all_leaves() {
    let mut h = Hilbert::new(8, 0, 0, 8, None);
    h.subdivide();
    assert!(h.get_leaf(0, 0).is_some());
    assert!(h.get_leaf(7, 7).is_some());
    assert_eq!(h.rasterize().len(), 16);
}

#[test]
fn subdivide_leaf_refines_towards_point() {
    let mut h = Hilbert::new(8, 0, 0, 8, None);
    h.subdivide_leaf(0, 0, 2);
    assert_eq!(h.rasterize().len(), 16);
    let mut h = Hilbert::new(8, 0, 0, 8, None);
    h.subdivide_leaf(0, 0, 3);
    assert_eq!(h.rasterize().len(), 28);
    let leaf = h.get_leaf(0, 0).as_ref().unwrap();
    assert!(leaf.get_leaf(0, 0).is_some());
    let mut h = Hilbert::new(8, 0, 0, 8, None);
    h.subdivide_leaf(0, 0, 0);
    assert_eq!(h.rasterize().len(), 4);
}

#[test]
fn midpoint_of_extreme_bounds() {
    let h = Hilbert::new(u32::MAX, 0, u32::MAX - 1, u32::MAX, None);
    let r = h.rasterize();
    assert_eq!(r.len(), 4);
    assert_eq!(r[1], ((u32::MAX - 1) as u64 + (u32::MAX - 1) as u64, 0 + (u32::MAX / 2) as u64));
}

#[test]
fn refining_keeps_existing_cells() {
    let mut h = Hilbert::new(8, 0, 0, 8, None);
    h.subdivide();
    h.subdivide_leaf(7, 7, 3);
    assert!(h.get_leaf(0, 0).is_some());
    let dr = h.get_leaf(7, 7).as_ref().unwrap();
    assert!(dr.get_leaf(7, 7).is_some());
    assert_eq!(dr.left, 4);
    assert_eq!(dr.top, 4);
}
