use proxrs::nodes::get_all_tested_nodes;
use proxrs::nodes::get_top_node;

fn round(samples: &[(&str, i64)]) -> Vec<(String, i64)> {
    samples.iter().map(|(n, l)| (n.to_string(), *l)).collect()
}

#[test]
fn test_get_stable_nodes() {
    let test_data = vec![
        round(&[("node1", 100), ("node2", 200), ("node3", 150)]),
        round(&[("node1", 110), ("node2", 190), ("node3", 160)]),
        round(&[("node1", 120), ("node3", 10000)]),
    ];

    println!("{:?}", get_top_node(&test_data));
}

#[test]
fn test_rename_pattern() {
    let count = "${COUNTRYCODE}_${CITY}_${ISP}".matches('_').count();
    println!("{count}");
    let count = "HongKong_Jordan_VertexConnectivityLLC62".matches('_').count();
    println!("{count}")
}

#[test]
fn top_node_has_least_mean() {
    let test_data = vec![
        round(&[("node1", 100), ("node2", 200), ("node3", 150)]),
        round(&[("node1", 110), ("node2", 190), ("node3", 160)]),
        round(&[("node1", 120), ("node3", 10000)]),
    ];
    assert_eq!(get_top_node(&test_data), ("node1".to_string(), 110));
}

#[test]
fn top_node_ties_go_to_the_first() {
    let data = vec![round(&[("b", 10), ("a", 10)]), round(&[("a", 11), ("b", 11)])];
    assert_eq!(get_top_node(&data), ("b".to_string(), 10));
}

#[test]
fn top_node_mean_rounds_toward_zero() {
    let data = vec![round(&[("a", -3)]), round(&[("a", -4)])];
    assert_eq!(get_top_node(&data), ("a".to_string(), -3));
    let data = vec![round(&[("a", i64::MAX)]), round(&[("a", i64::MAX)])];
    assert_eq!(get_top_node(&data), ("a".to_string(), i64::MAX));
}

#[test]
fn tested_nodes_in_first_order() {
    let data = vec![round(&[("n2", 1)]), round(&[("n1", 2), ("n2", 3)]), Vec::new()];
    assert_eq!(get_all_tested_nodes(&data), vec!["n2".to_string(), "n1".to_string()]);
    assert!(get_all_tested_nodes(&Vec::new()).is_empty());
}
