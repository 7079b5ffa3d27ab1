use bok::node::Node;
use bok::store::NodeManager;

fn mk(id: &str, after: Option<&str>) -> Node {
    Node::new(id.to_string(), format!("title {}", id), after.map(|s| s.to_string()))
}

fn ids(v: &[Node]) -> Vec<String> {
    v.iter().map(|n| n.id.clone()).collect()
}

#[test]
fn sort_without_dependencies_keeps_input_order() {
    let mut v = vec![mk("10", None), mk("20", None), mk("30", None)];
    NodeManager::sort_by_after_attribute(&mut v);
    assert_eq!(ids(&v), vec!["10", "20", "30"]);
}

#[test]
fn sort_chain_from_every_permutation() {
    let perms: [[&str; 3]; 6] = [
        ["a", "b", "c"],
        ["a", "c", "b"],
        ["b", "a", "c"],
        ["b", "c", "a"],
        ["c", "a", "b"],
        ["c", "b", "a"],
    ];
    for perm in perms.iter() {
        let mut v: Vec<Node> = perm
            .iter()
            .map(|name| match *name {
                "a" => mk("a", None),
                "b" => mk("b", Some("a")),
                _ => mk("c", Some("b")),
            })
            .collect();
        NodeManager::sort_by_after_attribute(&mut v);
        assert_eq!(ids(&v), vec!["a", "b", "c"], "permutation {:?}", perm);
    }
}

#[test]
fn sort_cycle_terminates_in_original_order() {
    let mut v = vec![mk("a", Some("b")), mk("b", Some("a"))];
    NodeManager::sort_by_after_attribute(&mut v);
    assert_eq!(ids(&v), vec!["a", "b"]);
}

#[test]
fn sort_dangling_reference_keeps_node() {
    let mut v = vec![mk("x", Some("missing")), mk("y", None)];
    NodeManager::sort_by_after_attribute(&mut v);
    assert_eq!(v.len(), 2);
    assert_eq!(ids(&v), vec!["y", "x"]);
}

#[test]
fn sort_mixed_groups() {
    // two independent chains interleaved
    let mut v = vec![
        mk("b", Some("a")),
        mk("q", Some("p")),
        mk("a", None),
        mk("p", None),
    ];
    NodeManager::sort_by_after_attribute(&mut v);
    assert_eq!(ids(&v), vec!["a", "p", "b", "q"]);
}
