use dynmap::world::World;

fn world() -> World {
    World::new(16).unwrap()
}

fn flat(pts: &[(i32, i32)]) -> Vec<i32> {
    pts.iter().flat_map(|&(x, y)| vec![x, y]).collect()
}

fn sorted_chunks(w: &World, id: u32) -> Vec<(i32, i32)> {
    let buf = w.get_territory_chunks_buffer(id);
    let mut v: Vec<(i32, i32)> = buf.chunks(2).map(|c| (c[0], c[1])).collect();
    v.sort();
    v
}

fn no_chunk_twice(w: &World) -> bool {
    let mut all: Vec<(i32, i32)> = Vec::new();
    for t in w.territories.iter() {
        for p in t.coords.iter() {
            all.push((p.x, p.y));
        }
    }
    let n = all.len();
    all.sort();
    all.dedup();
    all.len() == n
}

#[test]
fn counter_issues_increasing_ids() {
    let mut w = world();
    assert_eq!(w.get_territory_id_counter(), 0);
    assert_eq!(w.get_new_territory_id(), 0);
    assert_eq!(w.get_new_territory_id(), 1);
    w.set_territory_id_counter(10);
    assert_eq!(w.create_territory(None), 10);
    assert_eq!(w.get_territory_id_counter(), 11);
    assert_eq!(w.create_territory(Some(3)), 3);
    assert_eq!(w.get_territory_id_counter(), 11);
}

#[test]
fn occupied_chunks_are_skipped() {
    let mut w = world();
    let a = w.create_territory(None);
    let b = w.create_territory(None);
    assert!(w.add_coords_to_territory(a, flat(&[(0, 0), (1, 0)])));
    assert!(w.add_coords_to_territory(b, flat(&[(1, 0), (2, 0)])));
    assert_eq!(sorted_chunks(&w, a), vec![(0, 0), (1, 0)]);
    assert_eq!(sorted_chunks(&w, b), vec![(2, 0)]);
    assert!(no_chunk_twice(&w));
}

#[test]
fn add_to_unknown_territory_changes_nothing() {
    let mut w = world();
    assert!(!w.add_coords_to_territory(7, flat(&[(0, 0)])));
    assert!(w.territories.is_empty());
    assert_eq!(w.get_territory_size(7), None);
    assert!(w.get_territory_chunks_buffer(7).is_empty());
    assert_eq!(w.get_territory_is_edge(7), None);
    assert_eq!(w.get_territory_color(7), None);
}

#[test]
fn add_then_remove_restores_prior_chunks() {
    let mut w = world();
    let a = w.create_territory(None);
    w.add_coords_to_territory(a, flat(&[(0, 0), (0, 1)]));
    let before = sorted_chunks(&w, a);
    let extra = flat(&[(5, 5), (6, 5)]);
    w.add_coords_to_territory(a, extra.clone());
    assert_eq!(w.get_territory_size(a), Some(4));
    w.remove_coords(extra);
    assert_eq!(sorted_chunks(&w, a), before);
}

#[test]
fn remove_coords_takes_from_any_owner() {
    let mut w = world();
    let a = w.create_territory(None);
    let b = w.create_territory(None);
    w.add_coords_to_territory(a, flat(&[(0, 0)]));
    w.add_coords_to_territory(b, flat(&[(1, 0)]));
    w.remove_coords(vec![0, 0, 1, 0, 9]);
    assert_eq!(w.get_territory_size(a), Some(0));
    assert_eq!(w.get_territory_size(b), Some(0));
}

#[test]
fn circle_add_is_idempotent() {
    let mut w = world();
    let a = w.create_territory(None);
    assert!(w.add_circle_to_territory(a, 0, 0, 3));
    let once = sorted_chunks(&w, a);
    assert_eq!(once.len(), 25);
    assert!(!w.add_circle_to_territory(a, 0, 0, 3));
    assert_eq!(sorted_chunks(&w, a), once);
}

#[test]
fn circle_radius_is_strict() {
    let mut w = world();
    let a = w.create_territory(None);
    assert!(w.add_circle_to_territory(a, 10, 10, 1));
    assert_eq!(sorted_chunks(&w, a), vec![(10, 10)]);
    assert!(!w.add_circle_to_territory(a, 0, 0, 0));
    assert!(!w.add_circle_to_territory(99, 0, 0, 2));
}

#[test]
fn circle_remove_only_takes_own_chunks() {
    let mut w = world();
    let a = w.create_territory(None);
    let b = w.create_territory(None);
    w.add_coords_to_territory(b, flat(&[(0, 0)]));
    w.add_circle_to_territory(a, 0, 0, 2);
    assert_eq!(w.get_territory_size(a), Some(8));
    assert!(w.remove_circle_to_territory(a, 0, 0, 2));
    assert_eq!(w.get_territory_size(a), Some(0));
    assert_eq!(w.get_territory_size(b), Some(1));
    assert!(!w.remove_circle_to_territory(a, 0, 0, 2));
}

#[test]
fn neighbors_are_symmetric_and_edges_marked() {
    let mut w = world();
    let a = w.create_territory(None);
    let b = w.create_territory(None);
    let c = w.create_territory(None);
    w.add_coords_to_territory(a, flat(&[(0, 0), (1, 0)]));
    w.add_coords_to_territory(b, flat(&[(2, 0)]));
    w.add_coords_to_territory(c, flat(&[(9, 9)]));
    w.calculate_neighbors();
    assert_eq!(w.get_territory_neighbors(a), vec![b as i32]);
    assert_eq!(w.get_territory_neighbors(b), vec![a as i32]);
    assert!(w.get_territory_neighbors(c).is_empty());
    assert_eq!(w.get_territory_is_edge(a), Some(true));
}

#[test]
fn enclosed_territory_is_not_at_edge() {
    let mut w = world();
    let inner = w.create_territory(None);
    let outer = w.create_territory(None);
    w.add_coords_to_territory(inner, flat(&[(0, 0)]));
    w.add_circle_to_territory(outer, 0, 0, 3);
    w.calculate_neighbors();
    assert_eq!(w.get_territory_is_edge(inner), Some(false));
    assert_eq!(w.get_territory_is_edge(outer), Some(true));
}

#[test]
fn calculate_neighbors_twice_is_the_same() {
    let mut w = world();
    let a = w.create_territory(None);
    let b = w.create_territory(None);
    w.add_coords_to_territory(a, flat(&[(0, 0), (0, 1)]));
    w.add_coords_to_territory(b, flat(&[(1, 0), (1, 1)]));
    w.calculate_neighbors();
    let first: Vec<Vec<i32>> = vec![w.get_territory_neighbors(a), w.get_territory_neighbors(b)];
    w.calculate_neighbors();
    let second: Vec<Vec<i32>> = vec![w.get_territory_neighbors(a), w.get_territory_neighbors(b)];
    assert_eq!(first, second);
}

#[test]
fn four_mutually_adjacent_territories_get_distinct_colors() {
    let mut w = world();
    let a = w.create_territory(None);
    let b = w.create_territory(None);
    let c = w.create_territory(None);
    let d = w.create_territory(None);
    w.add_coords_to_territory(a, flat(&[(0, 0), (1, 0), (2, 0)]));
    w.add_coords_to_territory(b, flat(&[(0, 1)]));
    w.add_coords_to_territory(c, flat(&[(1, 1)]));
    w.add_coords_to_territory(d, flat(&[(2, 1), (0, 2), (1, 2), (2, 2)]));
    w.calculate_neighbors();
    for id in [a, b, c, d] {
        assert_eq!(w.get_territory_neighbors(id).len(), 3);
    }
    w.generate_colors();
    let colors: Vec<u8> = [a, b, c, d].iter().map(|&id| w.get_territory_color(id).unwrap()).collect();
    for i in 0..4 {
        assert!(colors[i] < 6);
        for j in 0..4 {
            if i != j {
                assert_ne!(colors[i], colors[j]);
            }
        }
    }
}

#[test]
fn merge_single_id_changes_nothing() {
    let mut w = world();
    let a = w.create_territory(None);
    w.add_coords_to_territory(a, flat(&[(0, 0)]));
    assert_eq!(w.merge_territories(vec![a]), Some(a));
    assert_eq!(sorted_chunks(&w, a), vec![(0, 0)]);
    assert_eq!(w.merge_territories(vec![]), None);
    assert_eq!(w.merge_territories(vec![42]), None);
}

#[test]
fn merge_moves_chunks_into_first() {
    let mut w = world();
    let a = w.create_territory(None);
    let b = w.create_territory(None);
    let c = w.create_territory(None);
    w.add_coords_to_territory(a, flat(&[(0, 0)]));
    w.add_coords_to_territory(b, flat(&[(1, 0)]));
    w.add_coords_to_territory(c, flat(&[(2, 0)]));
    assert_eq!(w.merge_territories(vec![a, b, 77]), None);
    assert_eq!(w.merge_territories(vec![a, b, c]), Some(a));
    assert_eq!(sorted_chunks(&w, a), vec![(0, 0), (1, 0), (2, 0)]);
    assert_eq!(w.get_territory_size(b), None);
    assert_eq!(w.get_territory_size(c), None);
    assert!(no_chunk_twice(&w));
}

#[test]
fn delete_frees_chunks() {
    let mut w = world();
    let a = w.create_territory(None);
    w.add_coords_to_territory(a, flat(&[(0, 0)]));
    w.delete_territory(a);
    assert_eq!(w.get_territory_size(a), None);
    let b = w.create_territory(None);
    assert!(w.add_coords_to_territory(b, flat(&[(0, 0)])));
    assert_eq!(w.get_territory_size(b), Some(1));
}

#[test]
fn territories_in_box() {
    let mut w = world();
    let a = w.create_territory(None);
    let b = w.create_territory(None);
    w.add_coords_to_territory(a, flat(&[(0, 0)]));
    w.add_coords_to_territory(b, flat(&[(10, 10)]));
    assert_eq!(w.get_territories_in_aabb(-1, -1, 1, 1), vec![a]);
    assert_eq!(w.get_territories_in_aabb(-20, -20, 20, 20), vec![a, b]);
    assert!(w.get_territories_in_aabb(3, 3, 4, 4).is_empty());
}

#[test]
fn subdivide_empty_territory_returns_empty_list() {
    let mut w = world();
    let a = w.create_territory(None);
    assert_eq!(w.subdivide_by_cells(a, &Vec::new(), 0, 0, 0), Some(Vec::new()));
    assert_eq!(w.get_territory_size(a), Some(0));
    assert_eq!(w.territories.len(), 1);
}

#[test]
fn subdivide_by_cells_groups_chunks() {
    let mut w = world();
    let a = w.create_territory(None);
    w.add_coords_to_territory(a, flat(&[(0, 0), (1, 0), (2, 0), (3, 0)]));
    let cells = vec![Some(0), Some(0), Some(1), None];
    let ids = w.subdivide_by_cells(a, &cells, 2, 0, 0).unwrap();
    assert_eq!(ids.len(), 2);
    assert_eq!(w.get_territory_size(a), None);
    assert_eq!(sorted_chunks(&w, ids[0]), vec![(0, 0), (1, 0)]);
    assert_eq!(sorted_chunks(&w, ids[1]), vec![(2, 0)]);
    assert!(no_chunk_twice(&w));
}

#[test]
fn subdivide_drops_and_merges_small_cells() {
    let mut w = world();
    let a = w.create_territory(None);
    w.add_coords_to_territory(a, flat(&[(0, 0), (1, 0), (2, 0), (3, 0), (4, 0), (9, 9)]));
    let cells = vec![Some(0), Some(0), Some(0), Some(1), Some(0), Some(2)];
    let dropped = w.subdivide_by_cells(a, &cells, 3, 0, 1).unwrap();
    assert_eq!(dropped.len(), 2);
    assert_eq!(w.get_territory_size(dropped[0]), Some(5));
    assert_eq!(w.get_territory_size(dropped[1]), Some(1));
    let mut w2 = world();
    let b = w2.create_territory(None);
    w2.add_coords_to_territory(b, flat(&[(0, 0), (1, 0), (5, 5)]));
    let ids = w2.subdivide_by_cells(b, &vec![Some(0), Some(0), Some(1)], 2, 2, 0).unwrap();
    assert_eq!(ids.len(), 1);
    assert_eq!(sorted_chunks(&w2, ids[0]), vec![(0, 0), (1, 0)]);
}

#[test]
fn subdivide_rejects_bad_input() {
    let mut w = world();
    let a = w.create_territory(None);
    w.add_coords_to_territory(a, flat(&[(0, 0)]));
    assert_eq!(w.subdivide_by_cells(a, &vec![], 1, 0, 0), None);
    assert_eq!(w.subdivide_by_cells(99, &vec![Some(0)], 1, 0, 0), None);
    assert_eq!(w.get_territory_size(a), Some(1));
}

#[test]
fn clear_removes_all_territories() {
    let mut w = world();
    let a = w.create_territory(None);
    w.add_coords_to_territory(a, flat(&[(0, 0)]));
    w.clear();
    assert!(w.territories.is_empty());
    assert_eq!(w.get_territory_size(a), None);
}

#[test]
fn grid_of_territories_is_fully_colored() {
    let mut w = world();
    let mut ids = Vec::new();
    for gx in 0..4 {
        for gy in 0..4 {
            let id = w.create_territory(None);
            w.add_coords_to_territory(id, flat(&[(gx, gy)]));
            ids.push(id);
        }
    }
    w.calculate_neighbors();
    w.generate_colors();
    for t in w.territories.iter() {
        let c = t.color.unwrap();
        assert!(c < 6);
        for n in t.neighbors.iter() {
            assert_ne!(w.get_territory_color(*n), Some(c));
        }
    }
    assert_eq!(ids.len(), 16);
}

#[test]
fn add_and_remove_whole_territories() {
    let mut w = world();
    let mut t = dynmap::territory::Territory::new(5);
    t.insert_coords(vec![dynmap::geometry::Point::new(1, 1)]);
    w.add_territory(t);
    assert_eq!(w.get_territory_size(5), Some(1));
    assert!(w.add_points_to_territory(5, vec![dynmap::geometry::Point::new(1, 2), dynmap::geometry::Point::new(1, 1)]));
    assert_eq!(sorted_chunks(&w, 5), vec![(1, 1), (1, 2)]);
    assert!(!w.add_points_to_territory(6, vec![dynmap::geometry::Point::new(0, 0)]));
    let removed = w.remove_territory(5).unwrap();
    assert_eq!(removed.id, 5);
    assert_eq!(removed.coords.len(), 2);
    assert!(w.remove_territory(5).is_none());
    assert!(w.territories.is_empty());
}

#[test]
fn territory_lookup_by_id() {
    let mut w = world();
    let a = w.create_territory(Some(12));
    assert!(w.has_territory(a));
    assert!(!w.has_territory(13));
    assert_eq!(w.territory(a).unwrap().id, 12);
    assert!(w.has_room_for(3));
    w.set_territory_id_counter(10);
    assert!(!w.has_room_for(3));
    assert!(w.has_room_for(2));
}

#[test]
fn subdivide_territory_with_explicit_id() {
    let mut w = world();
    let a = w.create_territory(Some(12));
    w.add_coords_to_territory(a, flat(&[(0, 0), (1, 0)]));
    let ids = w.subdivide_by_cells(a, &vec![Some(0), Some(1)], 2, 0, 0).unwrap();
    assert_eq!(ids, vec![0, 1]);
    assert_eq!(w.get_territory_size(12), None);
}

#[test]
fn check_wf_detects_shared_chunks() {
    let mut w = world();
    let a = w.create_territory(None);
    let b = w.create_territory(None);
    w.add_coords_to_territory(a, flat(&[(0, 0)]));
    assert!(w.check_wf());
    w.territories[1].coords.push(dynmap::geometry::Point::new(0, 0));
    assert!(!w.check_wf());
    assert_eq!(b, 1);
}
