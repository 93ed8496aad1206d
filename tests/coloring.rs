use dynmap::coloring::graph_6_coloring;

#[test]
fn k4_gets_four_distinct_colors() {
    let adj = vec![vec![1, 2, 3], vec![0, 2, 3], vec![0, 1, 3], vec![0, 1, 2]];
    let colors = graph_6_coloring(&adj);
    let got: Vec<u8> = colors.iter().map(|c| c.unwrap()).collect();
    for i in 0..4 {
        assert!(got[i] < 6);
        for j in 0..4 {
            if i != j {
                assert_ne!(got[i], got[j]);
            }
        }
    }
}

#[test]
fn k7_leaves_one_vertex_without_color() {
    let n = 7;
    let adj: Vec<Vec<usize>> = (0..n).map(|i| (0..n).filter(|&j| j != i).collect()).collect();
    let colors = graph_6_coloring(&adj);
    assert_eq!(colors.iter().filter(|c| c.is_none()).count(), 1);
}

#[test]
fn isolated_vertices_get_color_zero() {
    let adj: Vec<Vec<usize>> = vec![vec![], vec![]];
    assert_eq!(graph_6_coloring(&adj), vec![Some(0), Some(0)]);
}

#[test]
fn smallest_last_order_lists_each_vertex_once() {
    let adj = vec![vec![1], vec![0, 2], vec![1]];
    let mut order = dynmap::coloring::smallest_last_order(&adj);
    assert_eq!(order[0], 0);
    order.sort();
    assert_eq!(order, vec![0, 1, 2]);
}

#[test]
fn edgeless_graph_gets_color_zero_everywhere() {
    let adj: Vec<Vec<usize>> = vec![vec![], vec![], vec![]];
    assert!(graph_6_coloring(&adj).iter().all(|c| *c == Some(0)));
}

#[test]
fn path_gets_two_colors() {
    let adj = vec![vec![1], vec![0, 2], vec![1, 3], vec![2]];
    let colors = graph_6_coloring(&adj);
    assert!(colors.iter().all(|c| c.unwrap() <= 1));
}
