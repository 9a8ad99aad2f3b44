use undigraph::power::checked_power;
use undigraph::apollo::apollo_counts;
use undigraph::decimal::numbered;
use undigraph::koch::koch_counts;
use undigraph::pseudofractal::pseudo_counts;
use undigraph::GeneralUndiGraph;
use undigraph::NormalUndiGraph;

fn graph_with(edges: &[(usize, usize)]) -> GeneralUndiGraph {
    let mut g = GeneralUndiGraph::new("g".to_string());
    for &(u, v) in edges {
        g.add_edge(u, v);
    }
    g
}

fn check_lists(g: &NormalUndiGraph) {
    assert_eq!(g.adjs.len(), g.n);
    let mut total = 0;
    for (u, list) in g.adjs.iter().enumerate() {
        total += list.len();
        for pair in list.windows(2) {
            assert!(pair[0] < pair[1]);
        }
        for &v in list {
            assert!(v < g.n && v != u);
            assert!(g.adjs[v].contains(&u));
        }
    }
    assert_eq!(total, 2 * g.m);
}

#[test]
fn dense_triangle_keeps_its_labels() {
    let g = NormalUndiGraph::from_general(&graph_with(&[(0, 1), (1, 2), (0, 2)]));
    assert_eq!((g.n, g.m), (3, 3));
    assert_eq!(g.adjs, vec![vec![1, 2], vec![0, 2], vec![0, 1]]);
    assert_eq!(g.name, "g");
    check_lists(&g);
}

#[test]
fn dense_labels_are_kept_whatever_the_order_of_the_edges() {
    let g = NormalUndiGraph::from_general(&graph_with(&[(3, 2), (4, 0), (1, 4), (2, 0), (4, 2)]));
    assert_eq!((g.n, g.m), (5, 5));
    assert_eq!(g.adjs, vec![vec![2, 4], vec![4], vec![0, 3, 4], vec![2], vec![0, 1, 2]]);
    check_lists(&g);
}

#[test]
fn sparse_labels_get_ids_as_the_edges_show_them() {
    let g = NormalUndiGraph::from_general(&graph_with(&[(20, 30), (10, 20)]));
    assert_eq!((g.n, g.m), (3, 2));
    assert_eq!(g.adjs, vec![vec![1], vec![0, 2], vec![1]]);
    let g = NormalUndiGraph::from_general(&graph_with(&[(5, 7), (7, 1), (9, 5)]));
    assert_eq!((g.n, g.m), (4, 3));
    // edges in order: (1, 7), (5, 7), (5, 9), so 1, 7, 5, 9 become 0, 1, 2, 3
    assert_eq!(g.adjs, vec![vec![1], vec![0, 2], vec![1, 3], vec![2]]);
    check_lists(&g);
}

#[test]
fn lists_ascend_whatever_the_order_of_the_ids() {
    // edges in order: (2, 9), (3, 4), (3, 9), so 2, 9, 3, 4 become 0, 1, 2, 3, and the node 2
    // meets 3 before 1
    let g = NormalUndiGraph::from_general(&graph_with(&[(3, 9), (2, 9), (4, 3)]));
    assert_eq!((g.n, g.m), (4, 3));
    assert_eq!(g.adjs, vec![vec![1], vec![0, 2], vec![1, 3], vec![2]]);
    let g = NormalUndiGraph::from_general(&graph_with(&[(1, 50), (1, 60), (2, 70), (2, 50), (2, 1)]));
    // edges in order: (1, 2), (1, 50), (1, 60), (2, 50), (2, 70)
    assert_eq!(g.adjs, vec![vec![1, 2, 3], vec![0, 2, 4], vec![0, 1], vec![0], vec![1]]);
    check_lists(&g);
}

#[test]
fn labels_from_one_on_are_renumbered() {
    let g = NormalUndiGraph::from_general(&graph_with(&[(1, 2), (2, 3), (1, 3)]));
    assert_eq!((g.n, g.m), (3, 3));
    assert_eq!(g.adjs, vec![vec![1, 2], vec![0, 2], vec![0, 1]]);
}

#[test]
fn a_graph_without_nodes_is_the_empty_graph() {
    let g = NormalUndiGraph::from_general(&GeneralUndiGraph::new("void".to_string()));
    assert_eq!(g.name, "EmptyGraph");
    assert_eq!((g.n, g.m), (0, 0));
    assert!(g.adjs.is_empty());
}

#[test]
fn largest_component_in_compact_form() {
    let g = graph_with(&[(100, 200), (7, 8), (8, 9), (9, 7), (9, 11)]).lcc();
    let c = NormalUndiGraph::from_general(&g);
    assert_eq!((c.n, c.m), (4, 4));
    assert_eq!(c.adjs, vec![vec![1, 2], vec![0, 2], vec![0, 1, 3], vec![2]]);
}

#[test]
fn apollonian_network() {
    let g = NormalUndiGraph::from_apollo(0);
    assert_eq!((g.n, g.m), (4, 6));
    assert_eq!(g.name, "Apollo_0");
    assert_eq!(g.adjs, vec![vec![1, 2, 3], vec![0, 2, 3], vec![0, 1, 3], vec![0, 1, 2]]);
    let g = NormalUndiGraph::from_apollo(1);
    assert_eq!((g.n, g.m), (8, 18));
    assert_eq!(g.name, "Apollo_1");
    assert_eq!(
        g.adjs,
        vec![
            vec![1, 2, 3, 4, 5, 6],
            vec![0, 2, 3, 4, 5, 7],
            vec![0, 1, 3, 4, 6, 7],
            vec![0, 1, 2, 5, 6, 7],
            vec![0, 1, 2],
            vec![0, 1, 3],
            vec![0, 2, 3],
            vec![1, 2, 3],
        ]
    );
    check_lists(&g);
    let g = NormalUndiGraph::from_apollo(2);
    assert_eq!((g.n, g.m), (20, 54));
    assert_eq!(g.adjs[8], vec![0, 1, 4]);
    assert_eq!(g.adjs[9], vec![0, 2, 4]);
    assert_eq!(g.adjs[10], vec![1, 2, 4]);
    assert_eq!(g.adjs[19], vec![2, 3, 7]);
    check_lists(&g);
}

#[test]
fn test_apollo() {
    let g = NormalUndiGraph::from_apollo(4);
    assert_eq!((g.n, g.m), (2 * 81 + 2, 6 * 81));
    assert_eq!(g.name, "Apollo_4");
    check_lists(&g);
    let text = g.to_string();
    assert!(text.starts_with("# NormalUndiGraph: Apollo_4\n# Nodes: 164 Edges: 486\n0\t1\n0\t2\n"));
    assert_eq!(text.lines().count(), 2 + 486);
}

#[test]
fn koch_network() {
    let g = NormalUndiGraph::from_koch(0);
    assert_eq!((g.n, g.m), (3, 3));
    assert_eq!(g.name, "Koch_0");
    assert_eq!(g.adjs, vec![vec![1, 2], vec![0, 2], vec![0, 1]]);
    let g = NormalUndiGraph::from_koch(1);
    assert_eq!((g.n, g.m), (9, 9));
    assert_eq!(
        g.adjs,
        vec![
            vec![3, 4],
            vec![5, 6],
            vec![7, 8],
            vec![0, 4],
            vec![0, 3],
            vec![1, 6],
            vec![1, 5],
            vec![2, 8],
            vec![2, 7],
        ]
    );
    check_lists(&g);
    let g = NormalUndiGraph::from_koch(2);
    assert_eq!((g.n, g.m), (27, 27));
    assert_eq!(g.adjs[0], vec![9, 10]);
    assert_eq!(g.adjs[3], vec![11, 12]);
    assert_eq!(g.adjs[26], vec![8, 25]);
    check_lists(&g);
}

#[test]
fn test_koch() {
    let g = NormalUndiGraph::from_koch(4);
    assert_eq!((g.n, g.m), (243, 243));
    assert_eq!(g.name, "Koch_4");
    check_lists(&g);
    assert_eq!(g.to_string().lines().count(), 2 + 243);
}

#[test]
fn pseudofractal_network() {
    let g = NormalUndiGraph::from_pseudofractal(0);
    assert_eq!((g.n, g.m), (3, 3));
    assert_eq!(g.name, "Pseudofractal_0");
    assert_eq!(g.adjs, vec![vec![1, 2], vec![0, 2], vec![0, 1]]);
    let g = NormalUndiGraph::from_pseudofractal(1);
    assert_eq!((g.n, g.m), (6, 9));
    assert_eq!(
        g.adjs,
        vec![
            vec![1, 2, 3, 4],
            vec![0, 2, 3, 5],
            vec![0, 1, 4, 5],
            vec![0, 1],
            vec![0, 2],
            vec![1, 2],
        ]
    );
    check_lists(&g);
    let g = NormalUndiGraph::from_pseudofractal(3);
    assert_eq!((g.n, g.m), (42, 81));
    check_lists(&g);
}

#[test]
fn extended_pseudofractal_network() {
    for m in 0..4 {
        let g = NormalUndiGraph::from_pseudo_ext(m, 0);
        assert_eq!((g.n, g.m), (3, 3));
    }
    let g = NormalUndiGraph::from_pseudo_ext(0, 5);
    assert_eq!((g.n, g.m), (3, 3));
    assert_eq!(g.name, "PseudoExt_0_5");
    let g = NormalUndiGraph::from_pseudo_ext(2, 1);
    assert_eq!((g.n, g.m), (9, 15));
    assert_eq!(g.adjs[0], vec![1, 2, 3, 4, 5, 6]);
    assert_eq!(g.adjs[1], vec![0, 2, 3, 4, 7, 8]);
    assert_eq!(g.adjs[2], vec![0, 1, 5, 6, 7, 8]);
    assert_eq!(g.adjs[3], vec![0, 1]);
    assert_eq!(g.adjs[6], vec![0, 2]);
    assert_eq!(g.adjs[8], vec![1, 2]);
    let g = NormalUndiGraph::from_pseudo_ext(3, 2);
    assert_eq!((g.n, g.m), (3 + 9 + 63, 147));
    check_lists(&g);
}

#[test]
fn test_pseudo_ext() {
    let g = NormalUndiGraph::from_pseudo_ext(2, 4);
    assert_eq!((g.n, g.m), (939, 1875));
    assert_eq!(g.name, "PseudoExt_2_4");
    check_lists(&g);
    let text = g.to_string();
    assert!(text.starts_with("# NormalUndiGraph: PseudoExt_2_4\n# Nodes: 939 Edges: 1875\n0\t1\n"));
    assert_eq!(text.lines().count(), 2 + 1875);
}

#[test]
fn pseudofractal_is_the_extension_with_one_node() {
    let a = NormalUndiGraph::from_pseudofractal(3);
    let b = NormalUndiGraph::from_pseudo_ext(1, 3);
    assert_eq!(a.adjs, b.adjs);
    assert_eq!((a.n, a.m), (b.n, b.m));
    assert_eq!(b.name, "PseudoExt_1_3");
}

#[test]
fn a_compact_graph_is_written() {
    let mut g = NormalUndiGraph::from_general(&graph_with(&[(0, 1), (1, 2), (0, 2)]));
    g.name = "t".to_string();
    assert_eq!(g.edge_list(), vec![(0, 1), (0, 2), (1, 2)]);
    assert_eq!(g.to_string(), "# NormalUndiGraph: t\n# Nodes: 3 Edges: 3\n0\t1\n0\t2\n1\t2\n");
    let g = NormalUndiGraph::from_koch(1);
    assert_eq!(
        g.edge_list(),
        vec![(0, 3), (0, 4), (1, 5), (1, 6), (2, 7), (2, 8), (3, 4), (5, 6), (7, 8)]
    );
    let g = NormalUndiGraph { name: "x".to_string(), n: 7, m: 9, adjs: vec![vec![], vec![0, 5, 1]] };
    assert_eq!(g.edge_list(), vec![(1, 5), (1, 1)]);
    assert_eq!(g.to_string(), "# NormalUndiGraph: x\n# Nodes: 7 Edges: 9\n1\t5\n1\t1\n");
}

#[test]
fn degrees_are_the_lengths_of_the_lists() {
    let g = NormalUndiGraph::from_pseudofractal(1);
    assert_eq!(g.degrees(), vec![4, 4, 4, 2, 2, 2]);
    let g = NormalUndiGraph::from_general(&GeneralUndiGraph::new("void".to_string()));
    assert_eq!(g.degrees(), Vec::<usize>::new());
}

#[test]
fn test_diag_adj() {
    let g = GeneralUndiGraph::from_text("test_diag_adj", b"0 1\n0 2\n0 3\n1 3\n").unwrap();
    let g = NormalUndiGraph::from_general(&g);
    assert_eq!(g.name, "test_diag_adj");
    assert_eq!(g.degrees(), vec![3, 2, 1, 2]);
    assert_eq!(g.edge_list(), vec![(0, 1), (0, 2), (0, 3), (1, 3)]);
    let diag = nalgebra::DVector::from_iterator(g.n, g.degrees().iter().map(|d| *d as f64));
    let mut adj = nalgebra::DMatrix::<f64>::zeros(g.n, g.n);
    for (u, v) in g.edge_list() {
        adj[(u, v)] += 1.0;
        adj[(v, u)] += 1.0;
    }
    let lap = nalgebra::DMatrix::from_diagonal(&diag) - adj;
    let rows = [[3.0, -1.0, -1.0, -1.0], [-1.0, 2.0, 0.0, -1.0], [-1.0, 0.0, 1.0, 0.0],
        [-1.0, -1.0, 0.0, 2.0]];
    for u in 0..4 {
        for v in 0..4 {
            assert_eq!(lap[(u, v)], rows[u][v]);
        }
    }
}

#[test]
fn numerals() {
    assert_eq!(numbered("n", 0), "n0");
    assert_eq!(numbered("", 9), "9");
    assert_eq!(numbered("Koch_", 10), "Koch_10");
    assert_eq!(numbered("x", 1203), "x1203");
    assert_eq!(numbered("", usize::MAX), usize::MAX.to_string());
}

#[test]
fn powers_that_fit() {
    assert_eq!(checked_power(3, 0), Some(1));
    assert_eq!(checked_power(3, 4), Some(81));
    assert_eq!(checked_power(0, 0), Some(1));
    assert_eq!(checked_power(0, 7), Some(0));
    assert_eq!(checked_power(1, usize::MAX), Some(1));
    assert_eq!(checked_power(2, 63), Some(1usize << 63));
    assert_eq!(checked_power(2, 64), None);
    assert_eq!(checked_power(usize::MAX, 1), Some(usize::MAX));
    assert_eq!(checked_power(usize::MAX, 2), None);
    assert_eq!(checked_power(10, 19), Some(10_000_000_000_000_000_000));
    assert_eq!(checked_power(10, 20), None);
}

#[test]
fn counts_are_those_of_the_networks() {
    for g in 0..6 {
        let a = NormalUndiGraph::from_apollo(g);
        assert_eq!(apollo_counts(g), Some((a.n, a.m)));
        let k = NormalUndiGraph::from_koch(g);
        assert_eq!(koch_counts(g), Some((k.n, k.m)));
        for m in 0..3 {
            let p = NormalUndiGraph::from_pseudo_ext(m, g);
            assert_eq!(pseudo_counts(m, g), Some((p.n, p.m)));
        }
    }
    assert_eq!(apollo_counts(38), Some((2 * 3usize.pow(38) + 2, 6 * 3usize.pow(38))));
    assert_eq!(apollo_counts(39), None);
    assert_eq!(koch_counts(39), Some((3usize.pow(40), 3usize.pow(40))));
    assert_eq!(koch_counts(40), None);
    assert_eq!(pseudo_counts(usize::MAX, 0), Some((3, 3)));
    assert_eq!(pseudo_counts(usize::MAX, 1), None);
    assert_eq!(pseudo_counts(usize::MAX / 2, 1), None);
    assert_eq!(pseudo_counts(0, usize::MAX), Some((3, 3)));
    assert_eq!(pseudo_counts(1, 39), Some(((3usize.pow(40) + 3) / 2, 3usize.pow(40))));
    assert_eq!(pseudo_counts(1, 40), None);
}
