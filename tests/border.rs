use dynmap::border::join_edge_loops;
use dynmap::geometry::Point;
use dynmap::territory::Territory;

fn territory_of(id: u32, pts: &[(i32, i32)]) -> Territory {
    let mut t = Territory::new(id);
    t.insert_coords(pts.iter().map(|&(x, y)| Point::new(x, y)).collect());
    t
}

#[test]
fn single_chunk_border() {
    let t = territory_of(0, &[(0, 0)]);
    let outline = t.border_outline(2);
    let buf = outline.encode(Point::new(0, 0));
    assert_eq!(buf, vec![0, 0, 1, 1, 5, 0, 0, -1, -1, 1, -1, 1, 1, -1, 1, -1, -1]);
}

#[test]
fn two_disjoint_chunks_give_two_loops() {
    let t = territory_of(0, &[(0, 0), (5, 0)]);
    let outline = t.border_outline(2);
    assert_eq!(outline.clusters.len(), 2);
    assert_eq!(outline.loops.len(), 2);
    for l in outline.loops.iter() {
        assert_eq!(l.len(), 5);
        assert_eq!(l[0], l[4]);
    }
    let buf = outline.encode(Point::new(0, 0));
    assert_eq!(buf[2], 2);
    assert_eq!(buf.len(), 3 + 2 * (2 + 2 + 10));
}

#[test]
fn l_shape_gives_one_closed_loop() {
    let t = territory_of(0, &[(0, 0), (1, 0), (0, 1)]);
    let outline = t.border_outline(2);
    assert_eq!(outline.clusters.len(), 1);
    assert_eq!(outline.clusters[0].len(), 3);
    assert_eq!(outline.loops.len(), 1);
    let l = &outline.loops[0];
    // The stitched loop keeps the collinear corners where the three chunk
    // outlines (3, 4 and 4 points) were spliced twice: 9 points, that is 8
    // distinct vertices and the closing repeat. Of these, 6 are corners of the
    // L and the closing repeat makes the 7 that count the shape's outline.
    assert_eq!(l.len(), 9);
    assert_eq!(l[0], l[l.len() - 1]);
    for corner in [(-1, -1), (3, -1), (3, 1), (1, 1), (1, 3), (-1, 3)] {
        assert!(l.contains(&Point::new(corner.0, corner.1)));
    }
}

#[test]
fn empty_territory_border_is_zeroes() {
    let t = Territory::new(4);
    let outline = t.border_outline(16);
    assert_eq!(outline.encode(Point::new(0, 0)), vec![0, 0, 0]);
}

#[test]
fn ring_with_hole_keeps_its_outer_loop() {
    let mut pts = Vec::new();
    for x in 0..3 {
        for y in 0..3 {
            if !(x == 1 && y == 1) {
                pts.push((x, y));
            }
        }
    }
    let t = territory_of(0, &pts);
    let outline = t.border_outline(2);
    assert_eq!(outline.clusters.len(), 1);
    assert_eq!(outline.clusters[0].len(), 8);
    let l = &outline.loops[0];
    // the outer loop of 12 segments, not the hole's loop of 4
    assert_eq!(l.len(), 13);
    assert_eq!(l[0], l[12]);
    assert!(l.contains(&Point::new(-1, -1)));
    assert!(l.contains(&Point::new(5, 5)));
}

#[test]
fn largest_loop_is_the_one_with_most_vertices() {
    let t = territory_of(0, &[(0, 0), (5, 0), (6, 0)]);
    let outline = t.border_outline(2);
    let l = &outline.loops[outline.largest];
    assert!(outline.loops.iter().all(|m| m.len() <= l.len()));
    assert_eq!(l.len(), 7);
}

#[test]
fn border_scale_moves_corners() {
    let t = territory_of(0, &[(1, 2)]);
    let outline = t.border_outline(16);
    let l = &outline.loops[0];
    assert_eq!(l[0], Point::new(8, 24));
    assert_eq!(l[2], Point::new(24, 40));
}

#[test]
fn join_edge_loops_splices_shared_endpoints() {
    let a = vec![Point::new(0, 0), Point::new(1, 0)];
    let b = vec![Point::new(1, 0), Point::new(1, 1)];
    let c = vec![Point::new(5, 5), Point::new(6, 5)];
    let joined = join_edge_loops(vec![a, b, c]);
    assert_eq!(joined.len(), 2);
    let long = joined.iter().find(|l| l.len() == 3).unwrap();
    assert!(long.contains(&Point::new(0, 0)));
    assert!(long.contains(&Point::new(1, 1)));
}

#[test]
fn neighboring_points_surround_a_chunk() {
    let t = territory_of(0, &[(0, 0)]);
    let mut n = t.get_neighboring_points();
    n.sort_by_key(|p| (p.x, p.y));
    assert_eq!(n, vec![Point::new(-1, 0), Point::new(0, -1), Point::new(0, 1), Point::new(1, 0)]);
}

#[test]
fn to_buffer_flattens_chunks() {
    let t = territory_of(0, &[(3, 4), (5, 6)]);
    assert_eq!(t.to_buffer(), vec![3, 4, 5, 6]);
}

#[test]
fn remove_coords_from_territory() {
    let mut t = territory_of(0, &[(0, 0), (1, 0), (2, 0)]);
    t.remove_coords(&vec![Point::new(1, 0), Point::new(9, 9)]);
    assert_eq!(t.coords, vec![Point::new(0, 0), Point::new(2, 0)]);
    let b = t.get_aabb();
    assert_eq!(b.min, Point::new(0, 0));
    assert_eq!(b.max, Point::new(2, 0));
}

#[test]
fn diagonal_chunks_with_corner_share_a_cluster() {
    // (0,0) and (1,1) are diagonal; (1,0) fills an L-corner, so all three
    // border chunks form one cluster
    let t = territory_of(0, &[(0, 0), (1, 0), (1, 1)]);
    let outline = t.border_outline(2);
    assert_eq!(outline.clusters.len(), 1);
    assert_eq!(outline.labels, vec![0, 0, 0]);
}
