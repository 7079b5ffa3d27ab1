use bok::dissect::Llm;
use bok::dissect::StreamSegmenter;
use bok::error::Error;
use bok::node::Node;
use bok::store::NodeManager;

#[test]
fn import_dummy_round_trip() {
    let mut mgr = NodeManager::new();
    let doc = "This is the first part.\n\nThis is the second part.\n\n# Heading for third part.";
    let rep = bok::import::import_local(&mut mgr, doc, None).unwrap();
    assert_eq!(rep.count, 3, "Expected 3 nodes to be created.");
    assert_eq!(rep.part_errors, 0);
    assert!(rep.round_trip_ok);
    assert_eq!(mgr.len(), 3);
    let mut parts: Vec<String> = Vec::new();
    for id in &rep.created {
        parts.push(mgr.get_node_content(id).unwrap());
    }
    assert_eq!(parts.join("\n\n"), doc);
}

#[test]
fn import_single_part_document() {
    let mut mgr = NodeManager::new();
    let doc = "just one paragraph";
    let rep = bok::import::import_local(&mut mgr, doc, None).unwrap();
    assert_eq!(rep.count, 1);
    assert!(rep.round_trip_ok);
    assert_eq!(mgr.get_node_content(&rep.created[0]).unwrap(), doc);
}

#[test]
fn import_empty_document() {
    let mut mgr = NodeManager::new();
    let rep = bok::import::import_local(&mut mgr, "", None).unwrap();
    assert_eq!(rep.count, 1);
    assert!(rep.round_trip_ok);
}

#[test]
fn import_under_missing_parent_aborts() {
    let mut mgr = NodeManager::new();
    let doc = "a\n\nb";
    let r = bok::import::import_local(&mut mgr, doc, Some("doesnotexist"));
    assert_eq!(r.err(), Some(Error::ParentNotFound));
    assert_eq!(mgr.len(), 0);
}

#[test]
fn import_duplicate_part_aborts_with_partial_state() {
    let mut mgr = NodeManager::new();
    // both parts get the same blurb, hence the same id
    let doc = "same paragraph\n\nsame paragraph";
    let r = bok::import::import_local(&mut mgr, doc, None);
    assert_eq!(r.err(), Some(Error::DuplicateId));
    // the first node was created and is kept; the second was rejected
    assert_eq!(mgr.len(), 1);
    let id = bok::text::u32_to_dec(bok::identity::compute_id("same paragraph"));
    assert_eq!(mgr.get_node_content(&id).unwrap(), "same paragraph");
}

#[test]
fn ollama_request_url_and_prompt() {
    let mut settings = bok::config::LlmSettings::default();
    settings.model = "m".to_string();
    let p = bok::dissect::OllamaProvider::new(settings);
    assert_eq!(p.request_url(), "http://localhost:11434/api/generate");
    let mut custom = bok::config::LlmSettings::default();
    custom.location = Some("http://example".to_string());
    custom.port = Some(80);
    let q = bok::dissect::OllamaProvider::new(custom);
    assert_eq!(q.request_url(), "http://example:80/api/generate");
    let prompt = bok::dissect::dissection_prompt("BODY");
    assert!(prompt.ends_with("Dissect the following markdown:\n\nBODY"));
    assert!(prompt.starts_with("You are a helpful assistant"));
}

#[test]
fn import_chains_after_references() {
    let mut mgr = NodeManager::new();
    let doc = "one\n\ntwo\n\nthree";
    let rep = bok::import::import_local(&mut mgr, doc, None).unwrap();
    let forest = mgr.get_nodes_recursive();
    assert_eq!(forest.len(), 3);
    // the sibling order follows the creation chain
    let ids: Vec<&str> = forest.iter().map(|n| n.id.as_str()).collect();
    let created: Vec<&str> = rep.created.iter().map(|s| s.as_str()).collect();
    assert_eq!(ids, created);
    assert!(forest[0].after().is_none());
    assert_eq!(forest[1].after().unwrap(), &rep.created[0]);
    assert_eq!(forest[2].after().unwrap(), &rep.created[1]);
}

#[test]
fn dummy_iterator_splits_and_labels() {
    let provider = bok::dissect::DummyLlmProvider;
    let mut it = provider.dissect_markdown("alpha\n\nbeta");
    assert_eq!(
        it.next(),
        Some(Ok(("alpha".to_string(), "alpha".to_string())))
    );
    assert_eq!(it.next(), Some(Ok(("beta".to_string(), "beta".to_string()))));
    assert_eq!(it.next(), None);
}

#[test]
fn dummy_iterator_blurb_is_bounded() {
    let long = "x".repeat(80);
    let mut it = bok::dissect::DummyIterator::new(&long);
    let (blurb, content) = it.next().unwrap().unwrap();
    assert_eq!(blurb.chars().count(), 50);
    assert_eq!(content, long);
    assert!(long.starts_with(&blurb));
}

#[test]
fn streaming_segmentation_two_parts() {
    let mut seg = StreamSegmenter::new();
    let out1 = seg.push_and_parse("[\"a\",\"b\"]\n[\"c");
    assert_eq!(out1, vec![Ok(("a".to_string(), "b".to_string()))]);
    let out2 = seg.push_and_parse("\",\"d\"]\n");
    assert_eq!(out2, vec![Ok(("c".to_string(), "d".to_string()))]);
    assert_eq!(seg.finish(), None);
}

#[test]
fn streaming_flushes_unterminated_tail_on_finish() {
    let mut seg = StreamSegmenter::new();
    let out = seg.push_and_parse("[\"x\",\"y\"]");
    assert_eq!(out, vec![]);
    assert_eq!(seg.finish(), Some(Ok(("x".to_string(), "y".to_string()))));
}

#[test]
fn streaming_malformed_line_is_error() {
    let mut seg = StreamSegmenter::new();
    let out = seg.push_and_parse("not json\n");
    assert_eq!(out, vec![Err(Error::ProtocolError)]);
    let out2 = seg.push_and_parse("[\"a\",\"b\",\"c\"]\n[1,2]\n");
    assert_eq!(
        out2,
        vec![Err(Error::ProtocolError), Err(Error::ProtocolError)]
    );
}

#[test]
fn streaming_blank_lines_are_skipped() {
    let mut seg = StreamSegmenter::new();
    let out = seg.push_and_parse("\n  \n[\"p\",\"q\"]\n\n");
    assert_eq!(out, vec![Ok(("p".to_string(), "q".to_string()))]);
    assert_eq!(seg.finish(), None);
}

#[test]
fn parse_part_line_cases() {
    assert_eq!(
        bok::dissect::parse_part_line("  [\"l\",\"c\"]  "),
        Some(Ok(("l".to_string(), "c".to_string())))
    );
    assert_eq!(bok::dissect::parse_part_line("   "), None);
    assert_eq!(
        bok::dissect::parse_part_line("{\"not\":\"array\"}"),
        Some(Err(Error::ProtocolError))
    );
}

#[test]
fn import_session_skips_provider_errors() {
    let mut mgr = NodeManager::new();
    let mut session = bok::import::ImportSession::new(None);
    session
        .feed(&mut mgr, Ok(("first".to_string(), "first body".to_string())))
        .unwrap();
    session.feed(&mut mgr, Err(Error::ProtocolError)).unwrap();
    session
        .feed(&mut mgr, Ok(("second".to_string(), "second body".to_string())))
        .unwrap();
    let rep = session.finish(&mgr, "first body\n\nsecond body").unwrap();
    assert_eq!(rep.count, 2);
    assert_eq!(rep.part_errors, 1);
    assert!(rep.round_trip_ok);
}

#[test]
fn import_session_reports_mismatch() {
    let mut mgr = NodeManager::new();
    let mut session = bok::import::ImportSession::new(None);
    session
        .feed(&mut mgr, Ok(("part".to_string(), "actual body".to_string())))
        .unwrap();
    let rep = session.finish(&mgr, "a different document").unwrap();
    assert_eq!(rep.count, 1);
    assert!(!rep.round_trip_ok);
}

#[test]
fn get_llm_provider_selects_by_name() {
    let mut settings = bok::config::LlmSettings::default();
    assert!(matches!(
        bok::dissect::get_llm_provider(&settings),
        Ok(Llm::Ollama(_))
    ));
    settings.provider = "dummy".to_string();
    assert!(matches!(
        bok::dissect::get_llm_provider(&settings),
        Ok(Llm::Dummy(_))
    ));
    settings.provider = "anthropic".to_string();
    assert!(matches!(
        bok::dissect::get_llm_provider(&settings),
        Ok(Llm::Dummy(_))
    ));
    settings.provider = "openai".to_string();
    assert!(matches!(
        bok::dissect::get_llm_provider(&settings),
        Ok(Llm::Dummy(_))
    ));
    settings.provider = "bogus".to_string();
    assert_eq!(
        bok::dissect::get_llm_provider(&settings).err(),
        Some(Error::ProtocolError)
    );
}

#[test]
fn default_settings_values() {
    let s = bok::config::LlmSettings::default();
    assert_eq!(s.provider, "ollama");
    assert_eq!(s.model, "qwen3:8b");
    assert_eq!(s.location.as_deref(), Some("http://localhost"));
    assert_eq!(s.port, Some(11434));
}

#[test]
fn render_meta_exact_text() {
    let plain = Node::new("1".to_string(), "A Title".to_string(), None);
    assert_eq!(plain.render_meta(), "meta {\n  title: \"A Title\"\n}");
    let chained = Node::new("2".to_string(), "Second".to_string(), Some("1".to_string()));
    assert_eq!(
        chained.render_meta(),
        "meta {\n  title: \"Second\"\n  after: \"1\"\n}"
    );
}

#[test]
fn meta_round_trip_through_parser() {
    let original = Node::new(
        "77".to_string(),
        "Round Trip".to_string(),
        Some("76".to_string()),
    );
    let text = original.render_meta();
    let loaded = Node::from_meta(&text, "77".to_string()).unwrap();
    assert_eq!(loaded.id, "77");
    assert_eq!(loaded.blurb(), "Round Trip");
    assert_eq!(loaded.after().unwrap(), "76");
    let plain = Node::new("5".to_string(), "No After".to_string(), None);
    let loaded2 = Node::from_meta(&plain.render_meta(), "5".to_string()).unwrap();
    assert!(loaded2.after().is_none());
}

#[test]
fn from_meta_rejects_malformed_text() {
    let r = Node::from_meta("not metadata at all {{{", "1".to_string());
    assert_eq!(r.err(), Some(Error::ProtocolError));
}

#[test]
fn from_meta_does_not_substitute_environment() {
    // an environment reference must not resolve: the parse depends on the
    // document text alone
    let text = "meta {\n  title: ${SHELL}\n}";
    let r = Node::from_meta(text, "1".to_string());
    assert_eq!(r.err(), Some(Error::ProtocolError));
}

#[test]
fn text_utilities() {
    assert_eq!(bok::text::split_on_str("a\n\nb\n\nc", "\n\n"), vec!["a", "b", "c"]);
    assert_eq!(bok::text::split_on_str("abc", "\n\n"), vec!["abc"]);
    assert_eq!(bok::text::split_on_str("", "\n\n"), vec![""]);
    let parts = bok::text::split_on_str("x\n\n\n\ny", "\n\n");
    assert_eq!(parts, vec!["x", "", "y"]);
    assert_eq!(bok::text::join_with_str(&parts, "\n\n"), "x\n\n\n\ny");
    assert_eq!(bok::text::trim_str("  a b \n"), "a b");
    assert_eq!(bok::text::trim_str(" \t\r\n "), "");
    assert_eq!(bok::text::take_chars("abcdef", 3), "abc");
    assert_eq!(bok::text::take_chars("ab", 10), "ab");
    assert!(bok::text::str_eq("same", "same"));
    assert!(!bok::text::str_eq("same", "other"));
    assert!(bok::text::str_starts_with("12345 title", "123"));
    assert!(!bok::text::str_starts_with("12", "123"));
}
