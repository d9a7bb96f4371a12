use subway::dijkstra::{Dijkstra, PathError};
use subway::simple::{SimpleEdge, SimpleVertex, SimpleWeight};
use subway::weight::Weight;

#[test]
fn dijkstra_basic_test() {
    // arena order [s, b, c, d] gives the indices s = 0, b = 1, c = 2, d = 3
    let d = SimpleVertex::new();
    let mut c = SimpleVertex::new();
    let b = SimpleVertex::new();
    let mut s = SimpleVertex::new();

    c.add_edge(3, 12);
    s.add_edge(1, 24);
    s.add_edge(2, 3);
    s.add_edge(3, 20);

    let list = vec![s, b, c, d];
    let dijkstra: Dijkstra<SimpleVertex, SimpleEdge, SimpleWeight> = Dijkstra::new(list);

    let to_b = dijkstra.find_shorted_path(&vec![0], &vec![1]).unwrap();
    assert_eq!(to_b.0, vec![0, 1]);
    assert_eq!(to_b.1.weight, 24);

    let to_c = dijkstra.find_shorted_path(&vec![0], &vec![2]).unwrap();
    assert_eq!(to_c.0, vec![0, 2]);
    assert_eq!(to_c.1.weight, 3);

    let to_d = dijkstra.find_shorted_path(&vec![0], &vec![3]).unwrap();
    assert_eq!(to_d.0, vec![0, 2, 3]);
    assert_eq!(to_d.1.weight, 15);
}

#[test]
fn start_in_end_set_gives_single_vertex_path() {
    let mut s = SimpleVertex::new();
    let t = SimpleVertex::new();
    s.add_edge(1, 7);

    let dijkstra: Dijkstra<SimpleVertex, SimpleEdge, SimpleWeight> =
        Dijkstra::new(vec![s, t]);

    let got = dijkstra.find_shorted_path(&vec![0], &vec![0, 1]).unwrap();
    assert_eq!(got.0, vec![0]);
    assert_eq!(got.1.weight, 0);
    assert!(!got.1.is_infinity);
}

#[test]
fn unreachable_end_reports_no_path_found() {
    // the only edge runs away from the end set
    let mut s = SimpleVertex::new();
    let t = SimpleVertex::new();
    let u = SimpleVertex::new();
    s.add_edge(2, 5);

    let dijkstra: Dijkstra<SimpleVertex, SimpleEdge, SimpleWeight> =
        Dijkstra::new(vec![s, t, u]);

    let got = dijkstra.find_shorted_path(&vec![0], &vec![1]);
    assert_eq!(got, Err(PathError::NoPathFound));
}

#[test]
fn empty_start_set_reports_no_path_found() {
    let mut s = SimpleVertex::new();
    let t = SimpleVertex::new();
    s.add_edge(1, 5);

    let dijkstra: Dijkstra<SimpleVertex, SimpleEdge, SimpleWeight> =
        Dijkstra::new(vec![s, t]);

    let got = dijkstra.find_shorted_path(&vec![], &vec![1]);
    assert_eq!(got, Err(PathError::NoPathFound));
}

#[test]
fn unknown_vertices_are_silently_dropped() {
    let mut s = SimpleVertex::new();
    let t = SimpleVertex::new();
    s.add_edge(1, 9);

    let dijkstra: Dijkstra<SimpleVertex, SimpleEdge, SimpleWeight> =
        Dijkstra::new(vec![s, t]);

    let got = dijkstra.find_shorted_path(&vec![0, 77], &vec![99, 1]).unwrap();
    assert_eq!(got.0, vec![0, 1]);
    assert_eq!(got.1.weight, 9);
}

#[test]
fn multi_source_multi_sink_picks_cheapest_pair() {
    // two sources: one reaches the sink for 12, the other not at all
    let mut a = SimpleVertex::new();
    let b = SimpleVertex::new();
    let mut c = SimpleVertex::new();
    let d = SimpleVertex::new();
    a.add_edge(3, 40);
    c.add_edge(3, 12);

    let dijkstra: Dijkstra<SimpleVertex, SimpleEdge, SimpleWeight> =
        Dijkstra::new(vec![a, b, c, d]);

    let got = dijkstra.find_shorted_path(&vec![0, 2], &vec![3]).unwrap();
    assert_eq!(got.0, vec![2, 3]);
    assert_eq!(got.1.weight, 12);
}

#[test]
fn infinite_edge_does_not_make_an_end_reachable() {
    let mut s = SimpleVertex::new();
    let t = SimpleVertex::new();
    s.edges.push(SimpleEdge {
        to: 1,
        weight: SimpleWeight { weight: 0, is_infinity: true },
    });

    let dijkstra: Dijkstra<SimpleVertex, SimpleEdge, SimpleWeight> =
        Dijkstra::new(vec![s, t]);

    let got = dijkstra.find_shorted_path(&vec![0], &vec![1]);
    assert_eq!(got, Err(PathError::NoPathFound));
}

#[test]
fn weight_algebra_operations() {
    let three = SimpleWeight { weight: 3, is_infinity: false };
    let four = SimpleWeight { weight: 4, is_infinity: false };
    let sum = three.add(&four);
    assert_eq!(sum.weight, 7);
    assert!(!sum.is_infinity);

    let zero = SimpleWeight::zero();
    assert_eq!(zero.add(&three).weight, 3);
    assert_eq!(zero.weight, 0);
    assert!(!zero.is_infinity());

    let inf = SimpleWeight::infinity();
    assert!(inf.is_infinity());
    assert!(inf.add(&three).is_infinity());
    assert!(three.add(&inf).is_infinity());

    assert!(three.le(&four));
    assert!(!four.le(&three));
    assert!(three.le(&inf));
    assert!(!inf.le(&three));
    assert!(inf.le(&inf));

    let huge = SimpleWeight { weight: usize::MAX - 1, is_infinity: false };
    let saturated = huge.add(&four);
    assert_eq!(saturated.weight, usize::MAX);
    assert!(!saturated.is_infinity);

    assert_eq!(three.dup().weight, 3);
}

#[test]
fn zero_weight_cycle_terminates() {
    // a zero-weight two-cycle next to the shortest route
    let mut a = SimpleVertex::new();
    let mut b = SimpleVertex::new();
    let mut c = SimpleVertex::new();
    let d = SimpleVertex::new();
    a.add_edge(1, 0);
    b.add_edge(2, 0);
    c.add_edge(1, 0);
    c.add_edge(3, 2);

    let dijkstra: Dijkstra<SimpleVertex, SimpleEdge, SimpleWeight> =
        Dijkstra::new(vec![a, b, c, d]);

    let got = dijkstra.find_shorted_path(&vec![0], &vec![3]).unwrap();
    assert_eq!(got.0, vec![0, 1, 2, 3]);
    assert_eq!(got.1.weight, 2);
}
