use undigraph::konect::{fetched_after, is_konect_edge_file, konect_url, receive};
use undigraph::text::{parse_line, parse_number, EdgeListError, LineFault};
use undigraph::GeneralUndiGraph;

fn sparse_graph(edges: &[(usize, usize)]) -> GeneralUndiGraph {
    let mut g = GeneralUndiGraph::new("g".to_string());
    for &(u, v) in edges {
        g.add_edge(u, v);
    }
    g
}

#[test]
fn new_graph_is_empty() {
    let g = GeneralUndiGraph::new("none".to_string());
    assert_eq!(g.name, "none");
    assert_eq!(g.num_nodes(), 0);
    assert_eq!(g.num_edges(), 0);
}

#[test]
fn loops_are_ignored() {
    let mut g = sparse_graph(&[(1, 2)]);
    for u in [0usize, 1, 2, 7, usize::MAX] {
        g.add_edge(u, u);
    }
    assert_eq!(g.num_nodes(), 2);
    assert_eq!(g.num_edges(), 1);
    assert!(!g.nodes.contains(&7));
}

#[test]
fn an_edge_is_stored_once_smaller_end_first() {
    let mut g = GeneralUndiGraph::new("g".to_string());
    g.add_edge(1, 2);
    g.add_edge(2, 1);
    assert_eq!(g.num_edges(), 1);
    assert_eq!(g.num_nodes(), 2);
    assert!(g.edges.contains(&(1, 2)));
    assert!(!g.edges.contains(&(2, 1)));
    assert_eq!(g.edge_list(), vec![(1, 2)]);
}

#[test]
fn edge_list_is_in_lexicographic_order() {
    let g = sparse_graph(&[(9, 2), (1, 30), (1, 4), (0, 100), (2, 3)]);
    assert_eq!(g.edge_list(), vec![(0, 100), (1, 4), (1, 30), (2, 3), (2, 9)]);
    let mut nodes = g.node_list();
    nodes.sort();
    assert_eq!(nodes, vec![0, 1, 2, 3, 4, 9, 30, 100]);
}

#[test]
fn dense_labels_are_recognised() {
    assert!(sparse_graph(&[(0, 1), (1, 2), (0, 2)]).has_dense_labels());
    assert!(sparse_graph(&[(0, 1)]).has_dense_labels());
    assert!(!sparse_graph(&[(1, 2)]).has_dense_labels());
    assert!(!sparse_graph(&[(0, 1), (1, 3)]).has_dense_labels());
    assert!(GeneralUndiGraph::new("e".to_string()).has_dense_labels());
}

#[test]
fn lcc_of_two_triangles_is_one_of_them() {
    let g = sparse_graph(&[(0, 1), (1, 2), (0, 2), (3, 4), (4, 5), (3, 5)]).lcc();
    assert_eq!(g.num_nodes(), 3);
    assert_eq!(g.num_edges(), 3);
    assert_eq!(g.name, "g");
    let low = g.nodes.contains(&0);
    for u in [0usize, 1, 2] {
        assert_eq!(g.nodes.contains(&u), low);
    }
    for u in [3usize, 4, 5] {
        assert_eq!(g.nodes.contains(&u), !low);
    }
}

#[test]
fn lcc_keeps_the_larger_component() {
    let g = sparse_graph(&[(10, 11), (0, 1), (1, 2), (2, 3), (20, 21), (21, 22)]).lcc();
    assert_eq!(g.edge_list(), vec![(0, 1), (1, 2), (2, 3)]);
    let mut nodes = g.node_list();
    nodes.sort();
    assert_eq!(nodes, vec![0, 1, 2, 3]);
}

#[test]
fn lcc_of_a_connected_graph_is_the_graph() {
    let g = sparse_graph(&[(5, 1), (1, 9), (9, 5), (9, 2)]).lcc();
    assert_eq!(g.num_nodes(), 4);
    assert_eq!(g.edge_list(), vec![(1, 5), (1, 9), (2, 9), (5, 9)]);
}

#[test]
fn numbers_are_parsed_as_written() {
    assert_eq!(parse_number(b"0"), Some(0));
    assert_eq!(parse_number(b"007"), Some(7));
    assert_eq!(parse_number(b"+15"), Some(15));
    assert_eq!(parse_number(b"1234567890"), Some(1234567890));
    assert_eq!(parse_number(usize::MAX.to_string().as_bytes()), Some(usize::MAX));
    assert_eq!(parse_number(b"18446744073709551616"), None);
    assert_eq!(parse_number(b"99999999999999999999999999"), None);
    assert_eq!(parse_number(b""), None);
    assert_eq!(parse_number(b"+"), None);
    assert_eq!(parse_number(b"++1"), None);
    assert_eq!(parse_number(b"-1"), None);
    assert_eq!(parse_number(b"1a"), None);
    assert_eq!(parse_number(b"1 "), None);
    assert_eq!(parse_number(b"1.5"), None);
}

#[test]
fn numbers_are_parsed_as_the_standard_library_does() {
    let tokens: [&str; 12] =
        ["0", "12", "+3", "", "+", "-4", "0x1", "18446744073709551615", "18446744073709551616",
        "000000000000000000000000000001", " 1", "1_0"];
    for t in tokens {
        assert_eq!(parse_number(t.as_bytes()), t.parse::<usize>().ok());
    }
}

#[test]
fn lines_are_parsed() {
    assert_eq!(parse_line(b"1 2"), Ok(Some((1, 2))));
    assert_eq!(parse_line(b"1\t2"), Ok(Some((1, 2))));
    assert_eq!(parse_line(b"10 20 30 abc"), Ok(Some((10, 20))));
    assert_eq!(parse_line(b"10 20\t"), Ok(Some((10, 20))));
    assert_eq!(parse_line(b"2 2"), Ok(Some((2, 2))));
    assert_eq!(parse_line(b"# 1 2"), Ok(None));
    assert_eq!(parse_line(b"%"), Ok(None));
    assert_eq!(parse_line(b"#"), Ok(None));
    assert_eq!(parse_line(b""), Err(LineFault::BadNumber));
    assert_eq!(parse_line(b"1"), Err(LineFault::MissingToken));
    assert_eq!(parse_line(b"x"), Err(LineFault::BadNumber));
    assert_eq!(parse_line(b"1 x"), Err(LineFault::BadNumber));
    assert_eq!(parse_line(b"1  2"), Err(LineFault::BadNumber));
    assert_eq!(parse_line(b" 1 2"), Err(LineFault::BadNumber));
    assert_eq!(parse_line(b"1 "), Err(LineFault::BadNumber));
    assert_eq!(parse_line(b"1 2\r"), Err(LineFault::BadNumber));
    assert_eq!(parse_line(b" # 1 2"), Err(LineFault::BadNumber));
}

#[test]
fn an_edge_list_is_read() {
    let text = b"# a comment\n% another\n1 2\n3\t4 extra\n5 5\n2 1\n";
    let g = GeneralUndiGraph::from_text("euro", text).unwrap();
    assert_eq!(g.name, "euro");
    assert_eq!(g.edge_list(), vec![(1, 2), (3, 4)]);
    let mut nodes = g.node_list();
    nodes.sort();
    assert_eq!(nodes, vec![1, 2, 3, 4]);
}

#[test]
fn line_ends_are_taken_as_lines_does() {
    let g = GeneralUndiGraph::from_text("g", b"1 2\r\n3 4\r\n").unwrap();
    assert_eq!(g.edge_list(), vec![(1, 2), (3, 4)]);
    let g = GeneralUndiGraph::from_text("g", b"1 2\n3 4").unwrap();
    assert_eq!(g.edge_list(), vec![(1, 2), (3, 4)]);
    let g = GeneralUndiGraph::from_text("g", b"").unwrap();
    assert_eq!(g.num_nodes(), 0);
    let g = GeneralUndiGraph::from_text("g", b"#\n").unwrap();
    assert_eq!(g.num_edges(), 0);
    let e = GeneralUndiGraph::from_text("g", b"1 2\n3 4\r").err();
    assert_eq!(e, Some(EdgeListError { line: 1, fault: LineFault::BadNumber }));
    let e = GeneralUndiGraph::from_text("g", b"1 2\n\n3 4\n").err();
    assert_eq!(e, Some(EdgeListError { line: 1, fault: LineFault::BadNumber }));
    let e = GeneralUndiGraph::from_text("g", b"\r\n").err();
    assert_eq!(e, Some(EdgeListError { line: 0, fault: LineFault::BadNumber }));
}

#[test]
fn the_first_bad_line_is_named() {
    let e = GeneralUndiGraph::from_text("g", b"# c\n1 2\n7\n8 x\n").err();
    assert_eq!(e, Some(EdgeListError { line: 2, fault: LineFault::MissingToken }));
    let e = GeneralUndiGraph::from_text("g", b"1 2\n8 x\n7\n").err();
    assert_eq!(e, Some(EdgeListError { line: 1, fault: LineFault::BadNumber }));
    let e = GeneralUndiGraph::from_text("g", b"x").err();
    assert_eq!(e, Some(EdgeListError { line: 0, fault: LineFault::BadNumber }));
    let e = GeneralUndiGraph::from_text("g", b"1 2\n3 4\n5").err();
    assert_eq!(e, Some(EdgeListError { line: 2, fault: LineFault::MissingToken }));
}

#[test]
fn a_sparse_graph_is_written() {
    let mut g = GeneralUndiGraph::new("roads".to_string());
    g.add_edge(1, 2);
    g.add_edge(5, 0);
    g.add_edge(12, 1);
    assert_eq!(g.to_string(), "# GeneralUndiGraph: roads\n# Nodes: 5 Edges: 3\n0\t5\n1\t2\n1\t12\n");
    let g = GeneralUndiGraph::new("".to_string());
    assert_eq!(g.to_string(), "# GeneralUndiGraph: \n# Nodes: 0 Edges: 0\n");
}

#[test]
fn what_is_written_is_read_back() {
    let g = sparse_graph(&[(3, 1), (4, 1), (5, 9), (2, 6)]);
    let h = GeneralUndiGraph::from_text("g", g.to_string().as_bytes()).unwrap();
    assert_eq!(h.edge_list(), g.edge_list());
    assert_eq!(h.num_nodes(), g.num_nodes());
}

#[test]
fn konect_names() {
    assert_eq!(
        konect_url("subelj_euroroad"),
        "http://konect.cc/files/download.tsv.subelj_euroroad.tar.bz2"
    );
    assert!(is_konect_edge_file(b"out.subelj_euroroad_euroroad"));
    assert!(is_konect_edge_file(b"out."));
    assert!(!is_konect_edge_file(b"out"));
    assert!(!is_konect_edge_file(b"README.subelj_euroroad"));
    assert!(!is_konect_edge_file(b"meta.out.x"));
    assert!(!is_konect_edge_file(b""));
}

#[test]
fn download_progress_stays_within_the_whole() {
    assert_eq!(fetched_after(100, 0, 30), 30);
    assert_eq!(fetched_after(100, 30, 70), 100);
    assert_eq!(fetched_after(100, 90, 70), 100);
    assert_eq!(fetched_after(100, 100, 0), 100);
    assert_eq!(fetched_after(0, 0, 5), 0);
    assert_eq!(fetched_after(u64::MAX, u64::MAX - 1, usize::MAX), u64::MAX);
    assert_eq!(fetched_after(10, 20, 1), 10);
}

#[test]
fn chunks_are_received_in_order() {
    let mut payload: Vec<u8> = Vec::with_capacity(10);
    assert_eq!(receive(&mut payload, 10, 0, b"abc"), Some(3));
    assert_eq!(payload, b"abc");
    assert_eq!(receive(&mut payload, 10, 3, b""), Some(3));
    assert_eq!(payload, b"abc");
    assert_eq!(receive(&mut payload, 10, 3, b"defgh"), Some(8));
    assert_eq!(payload, b"abcdefgh");
    assert_eq!(receive(&mut payload, 10, 8, b"ijkl"), Some(10));
    assert_eq!(payload, b"abcdefghijkl");
}
