use gfatk::gfa::{Containment, Gfa, GfaPath, Link, Segment};
use gfatk::graph::{into_digraph, GFAdigraph, GraphError};
use gfatk::paths::{all_paths, all_paths_with_limit};
use gfatk::scc::{component_bounds, filter_by_size, strong_components};
use gfatk::select::best_path;
use gfatk::subgraph::segments_subgraph;

fn segment(name: usize, sequence: &str, coverage: u64) -> Segment {
    Segment { name, sequence: sequence.as_bytes().to_vec(), coverage }
}

fn records(names: &[usize], links: &[(usize, usize)]) -> Gfa {
    Gfa {
        header: b"VN:Z:1.0".to_vec(),
        segments: names.iter().map(|&n| segment(n, "ACGT", 10)).collect(),
        links: links
            .iter()
            .map(|&(a, b)| Link { from_segment: a, to_segment: b })
            .collect(),
        containments: vec![],
        paths: vec![],
    }
}

// The six-node test graph: two triangles sharing an edge, each adjacency in
// both directions, with the coverage of each edge.
const TEST_EDGES: [(usize, usize, u64); 16] = [
    (0, 3, 379),
    (0, 2, 338),
    (1, 3, 380),
    (1, 2, 374),
    (2, 4, 347),
    (2, 5, 399),
    (2, 1, 374),
    (2, 0, 338),
    (3, 5, 397),
    (3, 4, 349),
    (3, 1, 380),
    (3, 0, 379),
    (4, 2, 347),
    (4, 3, 349),
    (5, 2, 399),
    (5, 3, 397),
];

fn make_graph() -> GFAdigraph {
    let links: Vec<(usize, usize)> = TEST_EDGES.iter().map(|&(a, b, _)| (a, b)).collect();
    let gfa = records(&[0, 1, 2, 3, 4, 5], &links);
    into_digraph(&gfa).unwrap().1
}

fn edge_coverage() -> Vec<u64> {
    TEST_EDGES.iter().map(|&(_, _, c)| c).collect()
}

#[test]
fn test_node_count() {
    let graph = make_graph();
    assert_eq!(graph.node_count(), 6);
}

#[test]
fn test_edge_count() {
    let graph = make_graph();
    assert_eq!(graph.edge_count(), 16);
}

#[test]
fn test_path_generation() {
    let graph = make_graph();
    let paths = all_paths(&graph, 0, 2, None);
    let path1: Vec<usize> = vec![0, 2];
    let path2: Vec<usize> = vec![0, 3, 1, 2];
    let path3: Vec<usize> = vec![0, 3, 4, 2];
    let path4: Vec<usize> = vec![0, 3, 5, 2];
    assert!(paths.contains(&path1));
    assert!(paths.contains(&path2));
    assert!(paths.contains(&path3));
    assert!(paths.contains(&path4));
}

#[test]
fn best_quota_path_over_all_node_pairs() {
    let graph = make_graph();
    // nodes 2 and 3 may be visited twice
    let map: Vec<usize> = vec![1, 1, 2, 2, 1, 1];
    let cov = edge_coverage();
    let mut all: Vec<Vec<usize>> = Vec::new();
    for start in 0..graph.node_count() {
        for end in 0..graph.node_count() {
            if start != end {
                all.extend(all_paths(&graph, start, end, Some(&map)));
            }
        }
    }
    assert!(all.contains(&vec![2, 5, 3, 1, 2, 4, 3, 0]));
    // 399 + 399 + 374 + 380 + 379 + 379 + 349
    let path = best_path(&graph, &all, &cov).unwrap();
    assert_eq!(path, vec![2, 5, 2, 1, 3, 0, 3, 4]);
}

#[test]
fn plain_paths_are_exactly_four() {
    let graph = make_graph();
    let mut paths = all_paths(&graph, 0, 2, None);
    paths.sort();
    assert_eq!(
        paths,
        vec![vec![0, 2], vec![0, 3, 1, 2], vec![0, 3, 4, 2], vec![0, 3, 5, 2]]
    );
}

#[test]
fn plain_paths_follow_edges_without_repeats() {
    let graph = make_graph();
    for start in 0..6 {
        for end in 0..6 {
            for p in all_paths(&graph, start, end, None) {
                assert_eq!(p[0], start);
                assert_eq!(*p.last().unwrap(), end);
                for w in p.windows(2) {
                    assert!(graph.edges.contains(&(w[0], w[1])));
                }
                let mut sorted = p.clone();
                sorted.sort();
                sorted.dedup();
                assert_eq!(sorted.len(), p.len());
            }
        }
    }
}

#[test]
fn quota_paths_respect_quota() {
    let graph = make_graph();
    let map: Vec<usize> = vec![1, 1, 2, 2, 1, 1];
    let paths = all_paths(&graph, 2, 0, Some(&map));
    assert!(paths.contains(&vec![2, 5, 3, 1, 2, 4, 3, 0]));
    for p in &paths {
        assert_eq!(p[0], 2);
        assert_eq!(*p.last().unwrap(), 0);
        for v in 0..6 {
            assert!(p.iter().filter(|&&x| x == v).count() <= map[v]);
        }
    }
    // with every quota at one, the result is the plain one
    let ones: Vec<usize> = vec![1; 6];
    assert_eq!(all_paths(&graph, 2, 0, Some(&ones)), all_paths(&graph, 2, 0, None));
}

#[test]
fn lowered_depth_limit_falls_back_to_plain_paths() {
    let graph = make_graph();
    let map: Vec<usize> = vec![1, 1, 2, 2, 1, 1];
    let plain = all_paths(&graph, 2, 0, None);
    let limited = all_paths_with_limit(&graph, 2, 0, Some(&map), 2);
    assert_eq!(limited, plain);
    let full = all_paths_with_limit(&graph, 2, 0, Some(&map), 1000);
    assert_ne!(full, plain);
}

#[test]
fn start_equal_to_end_gives_single_node_path() {
    let graph = make_graph();
    assert_eq!(all_paths(&graph, 3, 3, None), vec![vec![3]]);
    let map: Vec<usize> = vec![2; 6];
    assert_eq!(all_paths(&graph, 3, 3, Some(&map)), vec![vec![3]]);
}

#[test]
fn best_path_picks_highest_coverage() {
    let graph = make_graph();
    let cov = edge_coverage();
    let paths = all_paths(&graph, 0, 2, None);
    // 0-3-5-2 carries 379 + 397 + 399
    assert_eq!(best_path(&graph, &paths, &cov), Some(vec![0, 3, 5, 2]));
    assert_eq!(best_path(&graph, &vec![], &cov), None);
}

#[test]
fn builder_maps_names_to_nodes() {
    let gfa = records(&[10, 20, 30], &[(10, 20), (20, 30), (20, 30)]);
    let (map, graph) = into_digraph(&gfa).unwrap();
    assert_eq!(graph.labels, vec![10, 20, 30]);
    assert_eq!(graph.edges, vec![(0, 1), (1, 2), (1, 2)]);
    assert_eq!(map[&30], 2);
    assert_eq!(map.len(), 3);
}

#[test]
fn builder_rejects_unknown_segment() {
    let gfa = records(&[1, 2], &[(1, 2), (2, 9)]);
    assert_eq!(into_digraph(&gfa).err(), Some(GraphError::UnknownSegmentReference(9)));
}

fn ring_of_six() -> Gfa {
    // segments 1..6 in one cycle, plus a tail 7 -> 8
    records(
        &[1, 2, 3, 4, 5, 6, 7, 8],
        &[(1, 2), (2, 3), (3, 4), (4, 5), (5, 6), (6, 1), (6, 7), (7, 8)],
    )
}

#[test]
fn scc_bounds_of_six_segment_component() {
    let (_, graph) = into_digraph(&ring_of_six()).unwrap();
    let comps = strong_components(&graph);
    assert_eq!(component_bounds(&graph, &comps, 5), vec![(0, 7)]);
    assert_eq!(component_bounds(&graph, &comps, 7), vec![]);
}

#[test]
fn scc_components_partition_nodes() {
    let (_, graph) = into_digraph(&ring_of_six()).unwrap();
    let comps = strong_components(&graph);
    let mut all: Vec<usize> = comps.iter().flatten().copied().collect();
    all.sort();
    assert_eq!(all, (0..8).collect::<Vec<usize>>());
    assert_eq!(comps.len(), 3);
    assert_eq!(filter_by_size(&comps, 2).len(), 1);
    let big = filter_by_size(&comps, 6);
    let mut members = big[0].clone();
    members.sort();
    assert_eq!(members, vec![0, 1, 2, 3, 4, 5]);
}

#[test]
fn subgraph_keeps_records_within_names() {
    let mut gfa = ring_of_six();
    gfa.containments = vec![
        Containment { container_name: 1, contained_name: 2 },
        Containment { container_name: 1, contained_name: 8 },
    ];
    gfa.paths = vec![
        GfaPath { path_name: b"tail".to_vec(), segment_names: vec![7, 8] },
        GfaPath { path_name: b"bridge".to_vec(), segment_names: vec![8, 2] },
    ];
    let sub = segments_subgraph(&gfa, vec![1, 2, 3]);
    assert_eq!(sub.header, b"VN:Z:1.0".to_vec());
    let names: Vec<usize> = sub.segments.iter().map(|s| s.name).collect();
    assert_eq!(names, vec![1, 2, 3]);
    assert_eq!(
        sub.links,
        vec![Link { from_segment: 1, to_segment: 2 }, Link { from_segment: 2, to_segment: 3 }]
    );
    assert_eq!(sub.containments, vec![Containment { container_name: 1, contained_name: 2 }]);
    assert_eq!(sub.paths.len(), 1);
    assert_eq!(sub.paths[0].path_name, b"bridge".to_vec());
    assert_eq!(sub.segments[0].sequence, b"ACGT".to_vec());
}
