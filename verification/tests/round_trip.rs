use json_graph::{decode, NodeRecord};
use serde_json::Value;

fn encode(nodes: &[(&str, &str, Vec<u32>)]) -> Vec<u8> {
    let mut root = serde_json::Map::new();
    for (key, data, dependencies) in nodes {
        let mut node = serde_json::Map::new();
        node.insert("Data".to_string(), Value::String(data.to_string()));
        node.insert(
            "Dependencies".to_string(),
            Value::Array(dependencies.iter().map(|d| Value::from(*d)).collect()),
        );
        root.insert(key.to_string(), Value::Object(node));
    }
    serde_json::to_vec(&Value::Object(root)).unwrap()
}

fn check_round_trip(nodes: &[(&str, &str, Vec<u32>)]) {
    let graph = decode(encode(nodes)).unwrap_or_else(|e| panic!("{e:?}"));
    assert_eq!(graph.len(), nodes.len());
    for (key, data, dependencies) in nodes {
        assert_eq!(
            graph.get(key),
            Some(&NodeRecord { data: data.to_string(), dependencies: dependencies.clone() })
        );
    }
    let mut keys: Vec<String> = graph.into_entries().into_iter().map(|e| e.key).collect();
    keys.sort();
    let mut expected: Vec<String> = nodes.iter().map(|n| n.0.to_string()).collect();
    expected.sort();
    assert_eq!(keys, expected);
}

#[test]
fn encoded_empty_graph_decodes_to_itself() {
    check_round_trip(&[]);
}

#[test]
fn encoded_graph_decodes_to_itself() {
    check_round_trip(&[
        ("root", "the root", vec![1, 2]),
        ("1", "left", vec![]),
        ("2", "right", vec![1, 1, 4294967295, 0]),
    ]);
}

#[test]
fn encoded_graph_with_unusual_text_decodes_to_itself() {
    check_round_trip(&[
        ("", "", vec![0]),
        ("Data", "Dependencies", vec![7]),
        ("quote\" backslash\\ newline\n tab\t", "\u{0}\u{1f} control", vec![3, 1, 2]),
        ("ключ 鍵 🔑", "données ✓", vec![u32::MAX]),
    ]);
}

#[test]
fn encoded_large_graph_decodes_to_itself() {
    let keys: Vec<String> = (0..2000u32).map(|i| format!("node-{i}")).collect();
    let nodes: Vec<(&str, &str, Vec<u32>)> = keys
        .iter()
        .enumerate()
        .map(|(i, k)| (k.as_str(), "payload", (0..(i as u32 % 17)).rev().collect()))
        .collect();
    check_round_trip(&nodes);
}
