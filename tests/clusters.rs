use point_clusters::dsu::DSU;
use point_clusters::edge::{edge_catalog, Edge};
use point_clusters::point::{squared_distance, Point};
use point_clusters::query::{
    analyze, bottleneck_edge, bottleneck_value, cluster_product, cluster_product_capped,
    connect_prefix, points_in_range,
};
use point_clusters::report::{report, Reported};

fn pt(x: i64, y: i64, z: i64) -> Point {
    Point { x, y, z }
}

fn pairs_scenario() -> Vec<Point> {
    vec![
        pt(0, 0, 0),
        pt(1, 0, 0),
        pt(1000, 0, 0),
        pt(1001, 0, 0),
        pt(2000, 0, 0),
        pt(2001, 0, 0),
    ]
}

#[test]
fn squared_distance_exact() {
    assert_eq!(squared_distance(&pt(1, 2, 3), &pt(4, 6, 8)), 50);
    assert_eq!(squared_distance(&pt(-5, 0, 0), &pt(5, 0, 0)), 100);
}

#[test]
fn catalog_orders_ties_by_index() {
    let pts = vec![pt(0, 0, 0), pt(1, 0, 0), pt(0, 1, 0)];
    let es = edge_catalog(&pts);
    assert_eq!(
        es,
        vec![
            Edge { dist2: 1, a: 0, b: 1 },
            Edge { dist2: 1, a: 0, b: 2 },
            Edge { dist2: 2, a: 1, b: 2 },
        ]
    );
}

#[test]
fn catalog_sorted_by_distance_then_pair() {
    let pts = vec![pt(0, 0, 0), pt(10, 0, 0), pt(1, 0, 0), pt(11, 0, 0)];
    let es = edge_catalog(&pts);
    assert_eq!(es.len(), 6);
    let got: Vec<(u128, usize, usize)> = es.iter().map(|e| (e.dist2, e.a, e.b)).collect();
    assert_eq!(
        got,
        vec![(1, 0, 2), (1, 1, 3), (81, 1, 2), (100, 0, 1), (100, 2, 3), (121, 0, 3)]
    );
    for w in es.windows(2) {
        assert!(w[0].precedes(&w[1]));
        assert!(!w[1].precedes(&w[0]));
    }
}

#[test]
fn catalog_of_degenerate_sets_is_empty() {
    assert!(edge_catalog(&Vec::new()).is_empty());
    assert!(edge_catalog(&vec![pt(3, 4, 5)]).is_empty());
}

#[test]
fn union_find_partition() {
    let mut d = DSU::new(6);
    assert!(d.union(0, 1));
    assert!(d.union(2, 3));
    assert!(d.union(1, 3));
    assert_eq!(d.find(0), d.find(2));
    assert_eq!(d.find(1), d.find(3));
    assert_ne!(d.find(0), d.find(4));
    assert_ne!(d.find(4), d.find(5));
    assert_eq!(d.len(), 6);
}

#[test]
fn union_twice_is_idempotent() {
    let mut d = DSU::new(4);
    assert!(d.union(1, 2));
    let before: Vec<usize> = (0..4).map(|i| d.find(i)).collect();
    assert!(!d.union(1, 2));
    assert!(!d.union(2, 1));
    let after: Vec<usize> = (0..4).map(|i| d.find(i)).collect();
    assert_eq!(before, after);
}

#[test]
fn connect_prefix_follows_chains() {
    let pts = pairs_scenario();
    let es = edge_catalog(&pts);
    let mut d = connect_prefix(6, &es, 3);
    assert_eq!(d.find(0), d.find(1));
    assert_eq!(d.find(2), d.find(3));
    assert_eq!(d.find(4), d.find(5));
    assert_ne!(d.find(0), d.find(2));
    assert_ne!(d.find(2), d.find(4));
}

#[test]
fn cluster_product_single_point() {
    let pts = vec![pt(7, 8, 9)];
    let es = edge_catalog(&pts);
    assert_eq!(cluster_product(&pts, &es), Reported::Normal(1));
}

#[test]
fn cluster_product_no_points() {
    let pts: Vec<Point> = Vec::new();
    let es = edge_catalog(&pts);
    assert_eq!(cluster_product(&pts, &es), Reported::Normal(1));
}

#[test]
fn cluster_product_three_pairs() {
    let pts = pairs_scenario();
    let es = edge_catalog(&pts);
    assert_eq!(cluster_product_capped(&pts, &es, 3), Reported::Normal(8));
}

#[test]
fn cluster_product_all_edges_one_component() {
    let pts = pairs_scenario();
    let es = edge_catalog(&pts);
    assert_eq!(cluster_product(&pts, &es), Reported::Normal(6));
}

#[test]
fn cluster_product_two_components_pads_with_one() {
    let pts = vec![pt(0, 0, 0), pt(1, 0, 0), pt(2, 0, 0), pt(500, 0, 0), pt(501, 0, 0)];
    let es = edge_catalog(&pts);
    assert_eq!(cluster_product_capped(&pts, &es, 3), Reported::Normal(6));
    assert_eq!(cluster_product_capped(&pts, &es, 0), Reported::Normal(1));
    assert_eq!(cluster_product_capped(&pts, &es, 1), Reported::Normal(2));
}

#[test]
fn bottleneck_path_scenario() {
    let pts = vec![pt(2, 0, 0), pt(3, 0, 0), pt(5, 0, 0), pt(9, 0, 0)];
    let es = edge_catalog(&pts);
    assert_eq!(bottleneck_edge(&pts, &es), Some(Edge { dist2: 16, a: 2, b: 3 }));
    assert_eq!(bottleneck_value(&pts, &es), Some(Reported::Normal(45)));
}

#[test]
fn bottleneck_tie_takes_catalog_order() {
    let pts = pairs_scenario();
    let es = edge_catalog(&pts);
    assert_eq!(bottleneck_edge(&pts, &es), Some(Edge { dist2: 998001, a: 3, b: 4 }));
    assert_eq!(bottleneck_value(&pts, &es), Some(Reported::Normal(1001 * 2000)));
}

#[test]
fn bottleneck_undefined_for_degenerate_input() {
    let none: Vec<Point> = Vec::new();
    assert_eq!(bottleneck_edge(&none, &edge_catalog(&none)), None);
    assert_eq!(bottleneck_value(&none, &edge_catalog(&none)), None);
    let one = vec![pt(4, 4, 4)];
    assert_eq!(bottleneck_edge(&one, &edge_catalog(&one)), None);
    assert_eq!(bottleneck_value(&one, &edge_catalog(&one)), None);
}

#[test]
fn bottleneck_overflow_uses_extended_path() {
    let pts = vec![pt(3_000_000_000, 0, 0), pt(4_000_000_000, 0, 0)];
    let es = edge_catalog(&pts);
    let v = bottleneck_value(&pts, &es).unwrap();
    assert_eq!(v, Reported::Extended(12_000_000_000_000_000_000));
    assert!(v.is_extended());
    assert_eq!(v.to_i128(), 12_000_000_000_000_000_000);

    let neg = vec![pt(-3_000_000_000, 0, 0), pt(4_000_000_000, 0, 0)];
    let es = edge_catalog(&neg);
    assert_eq!(
        bottleneck_value(&neg, &es),
        Some(Reported::Extended(-12_000_000_000_000_000_000))
    );
}

#[test]
fn report_boundaries() {
    assert_eq!(report(i64::MAX as i128), Reported::Normal(i64::MAX));
    assert_eq!(report(i64::MAX as i128 + 1), Reported::Extended(9_223_372_036_854_775_808));
    assert_eq!(report(i64::MIN as i128), Reported::Normal(i64::MIN));
    assert_eq!(report(i64::MIN as i128 - 1), Reported::Extended(-9_223_372_036_854_775_809));
    assert_eq!(report(0), Reported::Normal(0));
    assert!(!Reported::Normal(5).is_extended());
}

#[test]
fn analyze_runs_both_queries() {
    let a = analyze(&pairs_scenario());
    assert_eq!(a.cluster_product, Reported::Normal(6));
    assert_eq!(a.bottleneck, Some(Reported::Normal(2002000)));
    let b = analyze(&vec![pt(1, 1, 1)]);
    assert_eq!(b.cluster_product, Reported::Normal(1));
    assert_eq!(b.bottleneck, None);
}

#[test]
fn range_check_on_coordinates() {
    assert!(points_in_range(&vec![pt(1 << 62, -(1 << 62), 0)]));
    assert!(!points_in_range(&vec![pt(0, 0, i64::MAX)]));
    assert!(!points_in_range(&vec![pt(0, 0, 0), pt(i64::MIN, 0, 0)]));
    assert!(points_in_range(&Vec::new()));
}
