use gfatk::gfa::{Gfa, Link, Segment};
use gfatk::graph::GraphError;
use gfatk::stats::{compute_stat, Fraction, GenomeType, Stat, Stats, StatsError};

fn frac(num: u64, den: u64) -> Fraction {
    Fraction { num, den }
}

fn stat(index: usize, gc: Fraction, len: usize, segments: Vec<usize>) -> Stat {
    Stat {
        index,
        gc,
        node_count: segments.len(),
        edge_count: 0,
        cov: frac(0, 1),
        segments,
        total_sequence_length: len,
        is_circular: false,
    }
}

#[test]
fn extraction_keeps_stats_within_bounds() {
    let stats = Stats(vec![
        stat(0, frac(45, 100), 150000, vec![1, 2]),
        stat(1, frac(30, 100), 300000, vec![3]),
    ]);
    let r = stats.extract_organelle(100000, 200000, frac(35, 100), frac(55, 100));
    assert_eq!(r, Ok(vec![1, 2]));
}

#[test]
fn extraction_fails_when_nothing_within_bounds() {
    let stats = Stats(vec![
        stat(0, frac(45, 100), 150000, vec![1, 2]),
        stat(1, frac(30, 100), 300000, vec![3]),
    ]);
    let r = stats.extract_organelle(100000, 120000, frac(60, 100), frac(70, 100));
    assert_eq!(
        r,
        Err(StatsError::NoCandidatesInBounds {
            size_lower: 100000,
            size_upper: 140000,
            gc_lower: frac(60, 100),
            gc_upper: frac(70, 100),
        })
    );
}

#[test]
fn extraction_fails_on_empty_input() {
    let stats = Stats(vec![]);
    let r = stats.extract_organelle(0, 10, frac(0, 1), frac(1, 1));
    assert_eq!(r, Err(StatsError::EmptyInput));
}

#[test]
fn extraction_pads_upper_size_bound() {
    let u: usize = 200000;
    let accepted = Stats(vec![stat(0, frac(1, 2), u + 19999, vec![4])]);
    assert_eq!(accepted.extract_organelle(1000, u, frac(1, 4), frac(3, 4)), Ok(vec![4]));
    let rejected = Stats(vec![stat(0, frac(1, 2), u + 20001, vec![4])]);
    assert!(rejected.extract_organelle(1000, u, frac(1, 4), frac(3, 4)).is_err());
}

#[test]
fn extraction_bounds_are_strict() {
    let on_gc_bound = Stats(vec![stat(0, frac(35, 100), 150000, vec![1])]);
    assert!(on_gc_bound
        .extract_organelle(100000, 200000, frac(7, 20), frac(55, 100))
        .is_err());
    let on_size_bound = Stats(vec![stat(0, frac(45, 100), 100000, vec![1])]);
    assert!(on_size_bound
        .extract_organelle(100000, 200000, frac(35, 100), frac(55, 100))
        .is_err());
}

#[test]
fn extraction_concatenates_segments_in_order() {
    let mut stats = Stats(vec![]);
    stats.push(stat(0, frac(1, 2), 500, vec![5, 6]));
    stats.push(stat(1, frac(1, 10), 500, vec![7]));
    stats.push(stat(2, frac(2, 5), 600, vec![8]));
    assert_eq!(stats.0.len(), 3);
    let r = stats.extract_organelle(100, 1000, frac(1, 5), frac(3, 5));
    assert_eq!(r, Ok(vec![5, 6, 8]));
}

fn seg(name: usize, sequence: &str, coverage: u64) -> Segment {
    Segment { name, sequence: sequence.as_bytes().to_vec(), coverage }
}

#[test]
fn stat_of_cyclic_subgraph() {
    let gfa = Gfa {
        header: vec![],
        segments: vec![seg(1, "GGCCAT", 10), seg(2, "atgc", 20)],
        links: vec![
            Link { from_segment: 1, to_segment: 2 },
            Link { from_segment: 2, to_segment: 1 },
        ],
        containments: vec![],
        paths: vec![],
    };
    let s = compute_stat(3, &gfa).unwrap();
    assert_eq!(s.index, 3);
    assert_eq!(s.node_count, 2);
    assert_eq!(s.edge_count, 2);
    assert_eq!(s.total_sequence_length, 10);
    assert_eq!(s.gc, frac(6, 10));
    assert_eq!(s.cov, frac(30, 2));
    assert_eq!(s.segments, vec![1, 2]);
    assert!(s.is_circular);
}

#[test]
fn stat_of_acyclic_subgraph() {
    let gfa = Gfa {
        header: vec![],
        segments: vec![seg(1, "AAAA", 5), seg(2, "TTTT", 5)],
        links: vec![Link { from_segment: 1, to_segment: 2 }],
        containments: vec![],
        paths: vec![],
    };
    let s = compute_stat(0, &gfa).unwrap();
    assert_eq!(s.gc, frac(0, 8));
    assert!(!s.is_circular);
}

#[test]
fn stat_of_self_loop_is_circular() {
    let gfa = Gfa {
        header: vec![],
        segments: vec![seg(4, "", 0)],
        links: vec![Link { from_segment: 4, to_segment: 4 }],
        containments: vec![],
        paths: vec![],
    };
    let s = compute_stat(0, &gfa).unwrap();
    assert_eq!(s.gc, frac(0, 1));
    assert!(s.is_circular);
}

#[test]
fn stat_rejects_unknown_segment() {
    let gfa = Gfa {
        header: vec![],
        segments: vec![seg(1, "A", 1)],
        links: vec![Link { from_segment: 1, to_segment: 2 }],
        containments: vec![],
        paths: vec![],
    };
    assert_eq!(compute_stat(0, &gfa).err(), Some(GraphError::UnknownSegmentReference(2)));
}

#[test]
fn genome_types_compare() {
    assert!(GenomeType::Mitochondria != GenomeType::Chloroplast);
    assert_eq!(GenomeType::NoExtraction, GenomeType::NoExtraction);
}
