use n_body::geometry::{get_bounds, Bounds, Cell, Domain, Point, LAST_CELL};

#[test]
fn bounds_of_no_positions_is_none() {
    assert_eq!(get_bounds(&vec![]), None);
}

#[test]
fn bounds_of_one_position_is_that_point() {
    let b = get_bounds(&vec![Point { x: 7, y: 9 }]).unwrap();
    assert_eq!(b, Bounds { x_min: 7, x_max: 7, y_min: 9, y_max: 9 });
}

#[test]
fn bounds_touch_the_extremes() {
    let positions = vec![
        Point { x: 30, y: 5 },
        Point { x: 10, y: 50 },
        Point { x: 20, y: 70 },
        Point { x: 40, y: 60 },
    ];
    let b = get_bounds(&positions).unwrap();
    assert_eq!(b, Bounds { x_min: 10, x_max: 40, y_min: 5, y_max: 70 });
}

#[test]
fn bounds_reach_the_ends_of_the_lattice() {
    let positions = vec![Point { x: 0, y: u32::MAX }, Point { x: u32::MAX, y: 0 }];
    let b = get_bounds(&positions).unwrap();
    assert_eq!(b, Bounds { x_min: 0, x_max: u32::MAX, y_min: 0, y_max: u32::MAX });
}

#[test]
fn domain_takes_the_longer_side_and_the_middle() {
    let b = Bounds { x_min: 10, x_max: 40, y_min: 5, y_max: 70 };
    let d = Domain::enclosing(&b);
    assert_eq!(d, Domain { center_x2: 50, center_y2: 75, size: 65 });
}

#[test]
fn domain_of_a_wide_box_takes_the_width() {
    let b = Bounds { x_min: 0, x_max: 100, y_min: 20, y_max: 30 };
    let d = Domain::enclosing(&b);
    assert_eq!(d, Domain { center_x2: 100, center_y2: 50, size: 100 });
}

#[test]
fn domain_of_a_single_point_has_side_one() {
    let b = Bounds { x_min: 3, x_max: 3, y_min: 4, y_max: 4 };
    let d = Domain::enclosing(&b);
    assert_eq!(d, Domain { center_x2: 6, center_y2: 8, size: 1 });
    assert!(d.holds(Point { x: 3, y: 4 }));
}

#[test]
fn domain_holds_every_point_of_its_box() {
    let positions = vec![
        Point { x: 30, y: 5 },
        Point { x: 10, y: 50 },
        Point { x: 20, y: 70 },
        Point { x: 40, y: 60 },
    ];
    let d = Domain::enclosing(&get_bounds(&positions).unwrap());
    for p in &positions {
        assert!(d.holds(*p));
    }
    assert!(!d.holds(Point { x: 0, y: 0 }));
    assert!(!d.holds(Point { x: 25, y: 71 }));
}

#[test]
fn domain_checks_its_parts() {
    assert_eq!(Domain::new(10, 10, 0), None);
    assert_eq!(Domain::new(10, 10, 1u64 << 32), None);
    assert_eq!(Domain::new(1u64 << 33, 10, 4), None);
    assert_eq!(Domain::new(10, 1u64 << 33, 4), None);
    assert_eq!(Domain::new(10, 12, 4), Some(Domain { center_x2: 10, center_y2: 12, size: 4 }));
}

#[test]
fn cells_run_from_the_low_edge_to_the_high_edge() {
    // The square from 0 to 8 on both axes.
    let d = Domain { center_x2: 8, center_y2: 8, size: 8 };
    assert_eq!(d.locate(Point { x: 0, y: 0 }), Cell { x: 0, y: 0 });
    assert_eq!(d.locate(Point { x: 8, y: 8 }), Cell { x: LAST_CELL, y: LAST_CELL });
    // The middle of the square is the first cell of the upper half.
    assert_eq!(d.locate(Point { x: 4, y: 4 }), Cell { x: 1 << 31, y: 1 << 31 });
    // One lattice step is an eighth of the side: 2^32 / 8 cells.
    assert_eq!(d.locate(Point { x: 1, y: 2 }), Cell { x: 1 << 29, y: 1 << 30 });
    assert_eq!(d.locate(Point { x: 7, y: 3 }), Cell { x: 7 << 29, y: 3 << 29 });
}

#[test]
fn points_outside_go_to_the_nearest_edge_cell() {
    let d = Domain { center_x2: 20, center_y2: 20, size: 4 };
    assert_eq!(d.locate(Point { x: 0, y: 100 }), Cell { x: 0, y: LAST_CELL });
    assert_eq!(d.locate(Point { x: 8, y: 12 }), Cell { x: 0, y: LAST_CELL });
}

#[test]
fn distinct_points_of_a_domain_have_distinct_cells() {
    let d = Domain { center_x2: 7, center_y2: 7, size: 7 };
    let mut seen: Vec<u32> = Vec::new();
    for x in 0..=7u32 {
        let c = d.locate(Point { x, y: 0 });
        assert!(!seen.contains(&c.x));
        seen.push(c.x);
    }
    let widest = Domain { center_x2: u32::MAX as u64, center_y2: u32::MAX as u64, size: u32::MAX as u64 };
    let a = widest.locate(Point { x: u32::MAX - 1, y: 0 });
    let b = widest.locate(Point { x: u32::MAX, y: 1 });
    assert_eq!(b.x, LAST_CELL);
    assert!(a.x < b.x);
    assert_eq!(a.y, 0);
    assert!(b.y > 0);
}
