use bok::error::Error;
use bok::node::Node;
use bok::store::NodeManager;
use bok::store::NodeEntry;

fn node(id: &str, title: &str, after: Option<&str>) -> Node {
    Node::new(id.to_string(), title.to_string(), after.map(|s| s.to_string()))
}

#[test]
fn compute_id_deterministic() {
    let a = bok::identity::compute_id("Starting Node");
    let b = bok::identity::compute_id("Starting Node");
    assert_eq!(a, b);
    let c = bok::identity::compute_id("");
    let d = bok::identity::compute_id("");
    assert_eq!(c, d);
}

#[test]
fn compute_id_matches_murmur3_crate() {
    let mut reader = std::io::Cursor::new("This is the first part.".as_bytes());
    let direct = murmur3::murmur3_32(&mut reader, 0).unwrap();
    assert_eq!(bok::identity::compute_id("This is the first part."), direct);
}

#[test]
fn u32_to_dec_exact() {
    assert_eq!(bok::text::u32_to_dec(0), "0");
    assert_eq!(bok::text::u32_to_dec(12345), "12345");
    assert_eq!(bok::text::u32_to_dec(u32::MAX), "4294967295");
}

#[test]
fn create_and_read_back() {
    let mut mgr = NodeManager::new();
    let id = mgr.create_node("a title", "the body", None, None).unwrap();
    assert_eq!(mgr.len(), 1);
    let ids = bok::text::u32_to_dec(id);
    assert_eq!(mgr.get_node_content(&ids).unwrap(), "the body");
    let path = mgr.find_node_path(&ids).unwrap();
    assert_eq!(path, vec![format!("{} {}", ids, "a title")]);
}

#[test]
fn find_by_prefix() {
    let mut mgr = NodeManager::new();
    let id = mgr.create_node("prefixed", "content", None, None).unwrap();
    let ids = bok::text::u32_to_dec(id);
    let prefix = &ids[0..ids.len().min(3)];
    let path = mgr.find_node_path(prefix).unwrap();
    assert_eq!(path[0], format!("{} {}", ids, "prefixed"));
}

#[test]
fn get_node_content_not_found() {
    let mgr = NodeManager::new();
    assert_eq!(mgr.get_node_content("12345"), Err(Error::NotFound));
}

#[test]
fn create_missing_parent_fails() {
    let mut mgr = NodeManager::new();
    let r = mgr.create_node("child title", "child body", Some("doesnotexist"), None);
    assert_eq!(r, Err(Error::ParentNotFound));
    assert_eq!(mgr.len(), 0);
}

#[test]
fn create_under_parent_nests_path() {
    let mut mgr = NodeManager::new();
    let pid = mgr.create_node("parent", "p", None, None).unwrap();
    let pids = bok::text::u32_to_dec(pid);
    let cid = mgr.create_node("child", "c", Some(&pids), None).unwrap();
    let cids = bok::text::u32_to_dec(cid);
    let path = mgr.find_node_path(&cids).unwrap();
    assert_eq!(path.len(), 2);
    assert_eq!(path[0], format!("{} parent", pids));
    assert_eq!(path[1], format!("{} child", cids));
}

#[test]
fn remove_node_removes_subtree() {
    let mut mgr = NodeManager::new();
    let pid = mgr.create_node("top", "p", None, None).unwrap();
    let pids = bok::text::u32_to_dec(pid);
    let cid = mgr.create_node("inner", "c", Some(&pids), None).unwrap();
    let cids = bok::text::u32_to_dec(cid);
    let other = mgr.create_node("outer", "o", None, None).unwrap();
    let oids = bok::text::u32_to_dec(other);
    assert_eq!(mgr.len(), 3);
    let removed = mgr.remove_node(&pids).unwrap();
    assert_eq!(removed, vec![format!("{} top", pids)]);
    assert_eq!(mgr.len(), 1);
    assert_eq!(mgr.get_node_content(&pids), Err(Error::NotFound));
    assert_eq!(mgr.get_node_content(&cids), Err(Error::NotFound));
    assert_eq!(mgr.get_node_content(&oids).unwrap(), "o");
}

#[test]
fn create_duplicate_id_rejected() {
    let mut mgr = NodeManager::new();
    mgr.create_node("twice told", "first body", None, None).unwrap();
    let r = mgr.create_node("twice told", "second body", None, None);
    assert_eq!(r, Err(Error::DuplicateId));
    assert_eq!(mgr.len(), 1);
    let id = bok::text::u32_to_dec(bok::identity::compute_id("twice told"));
    assert_eq!(mgr.get_node_content(&id).unwrap(), "first body");
}

#[test]
fn remove_node_not_found() {
    let mut mgr = NodeManager::new();
    assert_eq!(mgr.remove_node("nothing"), Err(Error::NotFound));
}

#[test]
fn insert_entry_checks_shape() {
    let mut mgr = NodeManager::new();
    let good = NodeEntry {
        path: vec!["7 seven".to_string()],
        id: "7".to_string(),
        title: "seven".to_string(),
        after: None,
        content: "body".to_string(),
    };
    assert!(mgr.insert_entry(good));
    assert_eq!(mgr.len(), 1);
    let bad = NodeEntry {
        path: vec!["8 mismatch".to_string()],
        id: "9".to_string(),
        title: "mismatch".to_string(),
        after: None,
        content: String::new(),
    };
    assert!(!mgr.insert_entry(bad));
    assert_eq!(mgr.len(), 1);
}

#[test]
fn split_dir_name_takes_first_space() {
    assert_eq!(
        bok::store::split_dir_name("123 a title"),
        Some(("123".to_string(), "a title".to_string()))
    );
    assert_eq!(bok::store::split_dir_name("nospace"), None);
    assert_eq!(
        bok::store::split_dir_name("9 "),
        Some(("9".to_string(), String::new()))
    );
}

#[test]
fn dir_name_builds_id_space_title() {
    assert_eq!(bok::store::dir_name("42", "the answer"), "42 the answer");
}

#[test]
fn tree_nests_children_and_sorts_siblings() {
    let mut mgr = NodeManager::new();
    let pid = mgr.create_node("root node", "r", None, None).unwrap();
    let pids = bok::text::u32_to_dec(pid);
    let aid = mgr.create_node("alpha", "a", Some(&pids), None).unwrap();
    let aids = bok::text::u32_to_dec(aid);
    let bid = mgr
        .create_node("beta", "b", Some(&pids), Some(&aids))
        .unwrap();
    let bids = bok::text::u32_to_dec(bid);
    let cid = mgr
        .create_node("gamma", "c", Some(&pids), Some(&bids))
        .unwrap();
    let cids = bok::text::u32_to_dec(cid);
    let forest = mgr.get_nodes_recursive();
    assert_eq!(forest.len(), 1);
    assert_eq!(forest[0].id, pids);
    assert_eq!(forest[0].blurb(), "root node");
    let kids: Vec<&str> = forest[0].children.iter().map(|n| n.id.as_str()).collect();
    assert_eq!(kids, vec![aids.as_str(), bids.as_str(), cids.as_str()]);
}

#[test]
fn flat_list_is_depth_first() {
    let mut mgr = NodeManager::new();
    let pid = mgr.create_node("first root", "r", None, None).unwrap();
    let pids = bok::text::u32_to_dec(pid);
    let cid = mgr.create_node("a child", "c", Some(&pids), None).unwrap();
    let cids = bok::text::u32_to_dec(cid);
    let qid = mgr.create_node("second root", "q", None, None).unwrap();
    let qids = bok::text::u32_to_dec(qid);
    let got = bok::store::get_all_nodes_flat(&mgr);
    let want = vec![
        (pids, "first root".to_string()),
        (cids, "a child".to_string()),
        (qids, "second root".to_string()),
    ];
    assert_eq!(got, want);
}

#[test]
fn error_descriptions() {
    assert_eq!(Error::NotFound.describe(), "node not found");
    assert_eq!(Error::ParentNotFound.describe(), "parent node not found");
    assert_eq!(
        Error::DuplicateId.describe(),
        "a node with this id already exists"
    );
    assert_eq!(Error::IoFailure.describe(), "filesystem operation failed");
    assert_eq!(
        Error::ProtocolError.describe(),
        "malformed streamed line or metadata"
    );
    assert_eq!(Error::NetworkFailure.describe(), "network transport failure");
}

#[test]
fn select_starting_node_moves_first_match() {
    let mut v = vec![node("1", "a", None), node("2", "b", None), node("3", "c", None)];
    let taken = bok::order::select_starting_node(&mut v, "2").unwrap();
    assert_eq!(taken.id, "2");
    let rest: Vec<&str> = v.iter().map(|n| n.id.as_str()).collect();
    assert_eq!(rest, vec!["1", "3"]);
    assert!(bok::order::select_starting_node(&mut v, "9").is_none());
    assert_eq!(v.len(), 2);
}
